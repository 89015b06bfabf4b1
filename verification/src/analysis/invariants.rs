//! Place and transition invariants: integer vectors `y` with `y·C = 0`
//! (conserved weighted token sums) and `x` with `C·x = 0` (firing counts
//! with no net effect), where `C = Post − Pre` is the effect matrix of a net.
//!
//! The null space is found by exact Gauss–Jordan elimination over integers
//! of any size; each basis vector is scaled to coprime integers with a
//! positive entry on its free column, and checked against the matrix before
//! it is returned.
use num_bigint::BigInt;
use num_integer::Integer;
use num_traits::{Signed, Zero};
use vstd::prelude::*;

use crate::pt::PtNet;

mod arith;
pub mod span;

verus! {

/// An integer of any size, by its two's-complement bytes, least significant
/// first.
#[derive(Clone, Debug, PartialEq, Eq)]
pub struct BigNum {
    pub bytes: Vec<u8>,
}

/// `256` to the power `n`.
pub open spec fn pow256(n: nat) -> int
    decreases n,
{
    if n == 0 {
        1
    } else {
        256 * pow256((n - 1) as nat)
    }
}

/// The bytes `b`, least significant first, read as an unsigned number.
pub open spec fn unsigned_value(b: Seq<u8>) -> int
    decreases b.len(),
{
    if b.len() == 0 {
        0
    } else {
        unsigned_value(b.drop_last()) + b.last() * pow256((b.len() - 1) as nat)
    }
}

/// The bytes `b`, least significant first, read in two's complement: a last
/// byte of 128 or more makes the number negative.
pub open spec fn bytes_value(b: Seq<u8>) -> int {
    if b.len() > 0 && b.last() >= 128 {
        unsigned_value(b) - pow256(b.len())
    } else {
        unsigned_value(b)
    }
}

impl BigNum {
    /// The integer this stands for.
    pub open spec fn value(&self) -> int {
        bytes_value(self.bytes@)
    }
}

/// The absolute value of `x`.
pub open spec fn abs(x: int) -> nat {
    if x < 0 {
        (-x) as nat
    } else {
        x as nat
    }
}

/// The greatest common divisor of `a` and `b`; `gcd(0, 0) == 0`.
pub open spec fn gcd(a: nat, b: nat) -> nat
    decreases b,
{
    if b == 0 {
        a
    } else {
        gcd(b, a % b)
    }
}

/// `a / b` rounded toward zero.
pub open spec fn trunc_div(a: int, b: int) -> int {
    if a >= 0 {
        if b > 0 {
            a / b
        } else {
            -(a / (-b))
        }
    } else {
        if b > 0 {
            -((-a) / b)
        } else {
            (-a) / (-b)
        }
    }
}

/// `BigInt::from(u64)`, written back as two's-complement bytes
/// (`to_signed_bytes_le`): the number `x`.
#[verifier::external_body]
fn big_from_u64(x: u64) -> (r: BigNum)
    ensures
        r.value() == x as int,
{
    BigNum { bytes: BigInt::from(x).to_signed_bytes_le() }
}

/// `BigInt` addition, read from and written back to two's-complement bytes
/// (`from_signed_bytes_le`, `to_signed_bytes_le`): the exact sum.
#[verifier::external_body]
fn big_add(a: &BigNum, b: &BigNum) -> (r: BigNum)
    ensures
        r.value() == a.value() + b.value(),
{
    BigNum {
        bytes: (BigInt::from_signed_bytes_le(&a.bytes) + BigInt::from_signed_bytes_le(&b.bytes)).to_signed_bytes_le(),
    }
}

/// `BigInt` subtraction on two's-complement bytes: the exact difference.
#[verifier::external_body]
fn big_sub(a: &BigNum, b: &BigNum) -> (r: BigNum)
    ensures
        r.value() == a.value() - b.value(),
{
    BigNum {
        bytes: (BigInt::from_signed_bytes_le(&a.bytes) - BigInt::from_signed_bytes_le(&b.bytes)).to_signed_bytes_le(),
    }
}

/// `BigInt` multiplication on two's-complement bytes: the exact product.
#[verifier::external_body]
fn big_mul(a: &BigNum, b: &BigNum) -> (r: BigNum)
    ensures
        r.value() == a.value() * b.value(),
{
    BigNum {
        bytes: (BigInt::from_signed_bytes_le(&a.bytes) * BigInt::from_signed_bytes_le(&b.bytes)).to_signed_bytes_le(),
    }
}

/// `BigInt` division on two's-complement bytes, which rounds toward zero
/// and panics on a zero divisor.
#[verifier::external_body]
fn big_div(a: &BigNum, b: &BigNum) -> (r: BigNum)
    requires
        b.value() != 0,
    ensures
        r.value() == trunc_div(a.value(), b.value()),
{
    BigNum {
        bytes: (BigInt::from_signed_bytes_le(&a.bytes) / BigInt::from_signed_bytes_le(&b.bytes)).to_signed_bytes_le(),
    }
}

/// `Integer::gcd` on `BigInt`, on two's-complement bytes: the non-negative
/// greatest common divisor.
#[verifier::external_body]
fn big_gcd(a: &BigNum, b: &BigNum) -> (r: BigNum)
    ensures
        r.value() == gcd(abs(a.value()), abs(b.value())),
{
    BigNum {
        bytes: BigInt::from_signed_bytes_le(&a.bytes).gcd(&BigInt::from_signed_bytes_le(&b.bytes)).to_signed_bytes_le(),
    }
}

/// `Zero::is_zero` on `BigInt`, read from two's-complement bytes.
#[verifier::external_body]
fn big_is_zero(a: &BigNum) -> (r: bool)
    ensures
        r == (a.value() == 0),
{
    BigInt::from_signed_bytes_le(&a.bytes).is_zero()
}

/// `Signed::is_negative` on `BigInt`, read from two's-complement bytes.
#[verifier::external_body]
fn big_is_negative(a: &BigNum) -> (r: bool)
    ensures
        r == (a.value() < 0),
{
    BigInt::from_signed_bytes_le(&a.bytes).is_negative()
}

/// Entry `c` of `row`, zero past its end.
pub open spec fn entry_value(row: Seq<BigNum>, c: int) -> int {
    if 0 <= c < row.len() {
        row[c].value()
    } else {
        0
    }
}

/// The sum over the first `n` columns of `row` times `v`.
pub open spec fn dot(row: Seq<BigNum>, v: Seq<BigNum>, n: nat) -> int
    decreases n,
{
    if n == 0 {
        0
    } else {
        dot(row, v, (n - 1) as nat) + entry_value(row, n - 1) * v[n - 1].value()
    }
}

/// The values of the entries of `v`.
pub open spec fn vals(v: Seq<BigNum>) -> Seq<int> {
    Seq::new(v.len(), |i: int| v[i].value())
}

/// The sum over the first `n` columns of `row` times the integers `z`.
pub open spec fn dot_int(row: Seq<BigNum>, z: Seq<int>, n: nat) -> int
    decreases n,
{
    if n == 0 {
        0
    } else {
        dot_int(row, z, (n - 1) as nat) + entry_value(row, n - 1) * z[n - 1]
    }
}

/// Whether every row of `m`, over its first `n` columns, times the
/// integers `z` is zero.
pub open spec fn kernel_int(m: Seq<Vec<BigNum>>, z: Seq<int>, n: nat) -> bool {
    forall|r: int| 0 <= r < m.len() ==> #[trigger] dot_int(m[r]@, z, n) == 0
}

/// Whether the columns `fs` determine the kernel of `m` over `cols`
/// columns: the only integer vector in the kernel that is zero on all of
/// them is zero.
pub open spec fn determines(m: Seq<Vec<BigNum>>, cols: nat, fs: Seq<int>) -> bool {
    forall|z: Seq<int>|
        #![trigger kernel_int(m, z, cols)]
        z.len() == cols && kernel_int(m, z, cols) && (forall|k: int| 0 <= k < fs.len() ==> z[#[trigger] fs[k]] == 0)
            ==> forall|c: int| 0 <= c < cols ==> #[trigger] z[c] == 0
}

/// Whether every row of `m` times `v` is zero.
pub open spec fn in_kernel(m: Seq<Vec<BigNum>>, v: Seq<BigNum>) -> bool {
    forall|r: int| 0 <= r < m.len() ==> #[trigger] dot(m[r]@, v, v.len()) == 0
}

/// The greatest common divisor of the first `n` entries of `v`.
pub open spec fn gcd_of(v: Seq<BigNum>, n: nat) -> nat
    decreases n,
{
    if n == 0 {
        0
    } else {
        gcd(gcd_of(v, (n - 1) as nat), abs(v[n - 1].value()))
    }
}

/// Whether `basis` is made of vectors of `cols` integers in the kernel of
/// `m`, each with coprime entries, and each positive on a column of its own
/// where every other vector is zero (so the vectors are independent).
pub open spec fn kernel_basis(m: Seq<Vec<BigNum>>, cols: nat, basis: Seq<Vec<BigNum>>) -> bool {
    &&& forall|k: int|
        0 <= k < basis.len() ==> (#[trigger] basis[k])@.len() == cols && in_kernel(m, basis[k]@) && gcd_of(
            basis[k]@,
            cols,
        ) == 1
    &&& exists|fs: Seq<int>| #[trigger] own_columns(basis, fs, cols)
}

/// Whether `fs` gives each vector of `basis` a column of its own: below
/// `cols`, positive there, and zero there in every other vector.
pub open spec fn own_columns(basis: Seq<Vec<BigNum>>, fs: Seq<int>, cols: nat) -> bool {
    &&& fs.len() == basis.len()
    &&& forall|k: int| 0 <= k < fs.len() ==> 0 <= #[trigger] fs[k] < cols && basis[k]@[fs[k]].value() > 0
    &&& forall|j: int, k: int|
        0 <= j < fs.len() && 0 <= k < fs.len() && j != k ==> (#[trigger] basis[j])@[#[trigger] fs[k]].value() == 0
}

/// The zero.
fn big_zero() -> (r: BigNum)
    ensures
        r.value() == 0,
{
    big_from_u64(0)
}

/// `row` times `v` over the columns of `v`.
fn dot_exec(row: &Vec<BigNum>, v: &Vec<BigNum>) -> (r: BigNum)
    ensures
        r.value() == dot(row@, v@, v@.len()),
{
    let mut acc = big_zero();
    for c in 0..v.len()
        invariant
            acc.value() == dot(row@, v@, c as nat),
    {
        if c < row.len() {
            let term = big_mul(&row[c], &v[c]);
            acc = big_add(&acc, &term);
        }
    }
    acc
}

/// The greatest common divisor of the entries of `v`.
fn gcd_exec(v: &Vec<BigNum>) -> (r: BigNum)
    ensures
        r.value() == gcd_of(v@, v@.len()),
{
    let mut g = big_zero();
    for c in 0..v.len()
        invariant
            g.value() == gcd_of(v@, c as nat),
    {
        assert(abs(g.value()) == g.value());
        g = big_gcd(&g, &v[c]);
    }
    g
}

/// Whether `v`, of `cols` entries, is in the kernel of `matrix`, has
/// coprime entries, is positive on column `f` and zero on every other column
/// listed in `free`.
fn certified(matrix: &Vec<Vec<BigNum>>, v: &Vec<BigNum>, free: &Vec<usize>, f: usize) -> (ok: bool)
    requires
        f < v@.len(),
    ensures
        ok == {
            &&& in_kernel(matrix@, v@)
            &&& gcd_of(v@, v@.len()) == 1
            &&& v@[f as int].value() > 0
            &&& forall|j: int| 0 <= j < free@.len() && free@[j] != f ==> (#[trigger] free@[j]) < v@.len() && v@[free@[j] as int].value() == 0
        },
{
    for r in 0..matrix.len()
        invariant
            forall|q: int| 0 <= q < r ==> #[trigger] dot(matrix@[q]@, v@, v@.len()) == 0,
    {
        let d = dot_exec(&matrix[r], v);
        if !big_is_zero(&d) {
            return false;
        }
    }
    let g = gcd_exec(v);
    let one = big_from_u64(1);
    let g_minus_one = big_sub(&g, &one);
    if !big_is_zero(&g_minus_one) {
        return false;
    }
    if big_is_zero(&v[f]) || big_is_negative(&v[f]) {
        return false;
    }
    for j in 0..free.len()
        invariant
            f < v@.len(),
            forall|i: int| 0 <= i < j && free@[i] != f ==> (#[trigger] free@[i]) < v@.len() && v@[free@[i] as int].value() == 0,
    {
        let g = free[j];
        if g != f {
            if g >= v.len() {
                return false;
            }
            if !big_is_zero(&v[g]) {
                return false;
            }
        }
    }
    true
}

/// A copy of `b`.
fn copy_num(b: &BigNum) -> (r: BigNum)
    ensures
        r.value() == b.value(),
{
    let mut bytes: Vec<u8> = Vec::new();
    for k in 0..b.bytes.len()
        invariant
            bytes@ == b.bytes@.take(k as int),
    {
        bytes.push(b.bytes[k]);
        assert(b.bytes@.take(k + 1) == b.bytes@.take(k as int).push(b.bytes@[k as int]));
    }
    assert(b.bytes@.take(b.bytes@.len() as int) == b.bytes@);
    let r = BigNum { bytes };
    assert(r.bytes@ == b.bytes@);
    r
}

/// Whether `x` and `y` hold the same numbers.
pub open spec fn same_values(x: Seq<BigNum>, y: Seq<BigNum>) -> bool {
    x.len() == y.len() && forall|i: int| 0 <= i < x.len() ==> (#[trigger] x[i]).value() == y[i].value()
}

/// A copy of `v`.
fn copy_row(v: &Vec<BigNum>) -> (r: Vec<BigNum>)
    ensures
        same_values(r@, v@),
{
    let mut r: Vec<BigNum> = Vec::new();
    for k in 0..v.len()
        invariant
            r@.len() == k,
            k <= v@.len(),
            forall|i: int| 0 <= i < k ==> (#[trigger] r@[i]).value() == v@[i].value(),
    {
        r.push(copy_num(&v[k]));
    }
    r
}

/// The rows of `matrix`, each cut or padded with zeros to `cols` entries.
fn dense_rows(matrix: &Vec<Vec<BigNum>>, cols: usize) -> (a: Vec<Vec<BigNum>>)
    ensures
        a@.len() == matrix@.len(),
        forall|r: int| 0 <= r < a@.len() ==> (#[trigger] a@[r])@.len() == cols,
        forall|r: int, c: int|
            0 <= r < a@.len() && 0 <= c < cols ==> (#[trigger] a@[r]@[c]).value() == entry_value(matrix@[r]@, c),
{
    let mut a: Vec<Vec<BigNum>> = Vec::new();
    for r in 0..matrix.len()
        invariant
            a@.len() == r,
            r <= matrix@.len(),
            forall|q: int| 0 <= q < a@.len() ==> (#[trigger] a@[q])@.len() == cols,
            forall|q: int, c: int|
                0 <= q < a@.len() && 0 <= c < cols ==> (#[trigger] a@[q]@[c]).value() == entry_value(matrix@[q]@, c),
    {
        let mut row: Vec<BigNum> = Vec::new();
        for c in 0..cols
            invariant
                row@.len() == c,
                r < matrix@.len(),
                forall|x: int| 0 <= x < c ==> (#[trigger] row@[x]).value() == entry_value(matrix@[r as int]@, x),
        {
            if c < matrix[r].len() {
                row.push(copy_num(&matrix[r][c]));
            } else {
                row.push(big_zero());
            }
        }
        a.push(row);
    }
    a
}

/// `row` times `p` minus `prow` times `f`, entry by entry.
fn combine(row: &Vec<BigNum>, p: &BigNum, f: &BigNum, prow: &Vec<BigNum>) -> (r: Vec<BigNum>)
    requires
        row@.len() == prow@.len(),
    ensures
        r@.len() == row@.len(),
        forall|c: int|
            0 <= c < r@.len() ==> (#[trigger] r@[c]).value() == row@[c].value() * p.value() - prow@[c].value()
                * f.value(),
{
    let mut r: Vec<BigNum> = Vec::new();
    for c in 0..row.len()
        invariant
            r@.len() == c,
            row@.len() == prow@.len(),
            forall|x: int|
                0 <= x < c ==> (#[trigger] r@[x]).value() == row@[x].value() * p.value() - prow@[x].value() * f.value(),
    {
        let x = big_mul(&row[c], p);
        let y = big_mul(&prow[c], f);
        r.push(big_sub(&x, &y));
    }
    r
}

/// Every row of `a` has `cols` entries.
pub open spec fn rows_of_len(a: Seq<Vec<BigNum>>, cols: nat) -> bool {
    forall|r: int| 0 <= r < a.len() ==> (#[trigger] a[r])@.len() == cols
}

/// Whether `m` and `a` have the same integer kernel over `n` columns.
pub open spec fn same_kernel(m: Seq<Vec<BigNum>>, a: Seq<Vec<BigNum>>, n: nat) -> bool {
    forall|z: Seq<int>|
        #![trigger kernel_int(a, z, n)]
        #![trigger kernel_int(m, z, n)]
        z.len() == n ==> (kernel_int(m, z, n) <==> kernel_int(a, z, n))
}

/// Whether the first columns of `a`, up to `col`, are in reduced echelon
/// form with pivots `pivots`: row `j` has a non-zero entry in column
/// `pivots[j]` and every other row a zero there, and the rows below the
/// pivot rows are zero on the other columns.
pub open spec fn pivot_form(a: Seq<Vec<BigNum>>, pivots: Seq<usize>, col: nat) -> bool {
    &&& pivots.len() <= a.len()
    &&& forall|i: int, j: int| 0 <= i < j < pivots.len() ==> pivots[i] < pivots[j]
    &&& forall|i: int| 0 <= i < pivots.len() ==> #[trigger] pivots[i] < col
    &&& forall|j: int| 0 <= j < pivots.len() ==> (#[trigger] a[j]@[pivots[j] as int]).value() != 0
    &&& forall|j: int, q: int|
        #![trigger a[q]@[pivots[j] as int]]
        0 <= j < pivots.len() && 0 <= q < a.len() && q != j ==> a[q]@[pivots[j] as int].value() == 0
    &&& forall|q: int, c: int|
        #![trigger a[q]@[c]]
        pivots.len() <= q < a.len() && 0 <= c < col && !pivots.contains(c as usize) ==> a[q]@[c].value() == 0
}

/// Dense rows have the kernel of the rows they were made from.
proof fn lemma_dense_same_kernel(m: Seq<Vec<BigNum>>, a: Seq<Vec<BigNum>>, n: nat)
    requires
        a.len() == m.len(),
        forall|r: int, c: int| 0 <= r < a.len() && 0 <= c < n ==> (#[trigger] a[r]@[c]).value() == entry_value(m[r]@, c),
        rows_of_len(a, n),
    ensures
        same_kernel(m, a, n),
{
    assert forall|r: int, z: Seq<int>| 0 <= r < a.len() implies #[trigger] dot_int(a[r]@, z, n) == dot_int(m[r]@, z, n) by {
        assert forall|c: int| 0 <= c < n implies #[trigger] entry_value(a[r]@, c) == entry_value(m[r]@, c) by {
            assert(a[r]@[c].value() == entry_value(m[r]@, c));
        }
        arith::lemma_dot_int_same(a[r]@, m[r]@, z, n);
    }
    assert forall|z: Seq<int>| z.len() == n implies (kernel_int(m, z, n) <==> kernel_int(a, z, n)) by {
        if kernel_int(m, z, n) {
            assert forall|r: int| 0 <= r < a.len() implies #[trigger] dot_int(a[r]@, z, n) == 0 by {
                assert(dot_int(m[r]@, z, n) == 0);
            }
        }
        if kernel_int(a, z, n) {
            assert forall|r: int| 0 <= r < m.len() implies #[trigger] dot_int(m[r]@, z, n) == 0 by {
                assert(dot_int(a[r]@, z, n) == 0);
            }
        }
    }
}

/// Swapping two rows keeps the kernel.
proof fn lemma_swap_same_kernel(a: Seq<Vec<BigNum>>, b: Seq<Vec<BigNum>>, x: int, y: int, n: nat)
    requires
        0 <= x < a.len(),
        0 <= y < a.len(),
        b.len() == a.len(),
        same_values(b[x]@, a[y]@),
        same_values(b[y]@, a[x]@),
        forall|q: int| 0 <= q < a.len() && q != x && q != y ==> (#[trigger] b[q])@ == a[q]@,
    ensures
        same_kernel(a, b, n),
{
    assert forall|z: Seq<int>| z.len() == n implies (kernel_int(a, z, n) <==> kernel_int(b, z, n)) by {
        assert forall|c: int| 0 <= c < n implies #[trigger] entry_value(b[x]@, c) == entry_value(a[y]@, c) by {
            if 0 <= c < b[x]@.len() {
                assert(b[x]@[c].value() == a[y]@[c].value());
            }
        }
        assert forall|c: int| 0 <= c < n implies #[trigger] entry_value(b[y]@, c) == entry_value(a[x]@, c) by {
            if 0 <= c < b[y]@.len() {
                assert(b[y]@[c].value() == a[x]@[c].value());
            }
        }
        arith::lemma_dot_int_same(b[x]@, a[y]@, z, n);
        arith::lemma_dot_int_same(b[y]@, a[x]@, z, n);
        if kernel_int(a, z, n) {
            assert forall|r: int| 0 <= r < b.len() implies #[trigger] dot_int(b[r]@, z, n) == 0 by {
                if r == y {
                    assert(dot_int(a[x]@, z, n) == 0);
                } else if r == x {
                    assert(dot_int(a[y]@, z, n) == 0);
                } else {
                    assert(dot_int(a[r]@, z, n) == 0);
                }
            }
        }
        if kernel_int(b, z, n) {
            assert forall|r: int| 0 <= r < a.len() implies #[trigger] dot_int(a[r]@, z, n) == 0 by {
                if r == x {
                    assert(dot_int(b[y]@, z, n) == 0);
                } else if r == y {
                    assert(dot_int(b[x]@, z, n) == 0);
                } else {
                    assert(dot_int(b[r]@, z, n) == 0);
                }
            }
        }
    }
}

/// Swapping two rows below the pivot rows keeps the echelon form.
proof fn lemma_swap_pivot_form(
    a: Seq<Vec<BigNum>>,
    b: Seq<Vec<BigNum>>,
    pivots: Seq<usize>,
    col: nat,
    x: int,
    y: int,
    n: nat,
)
    requires
        pivot_form(a, pivots, col),
        pivots.len() <= x < a.len(),
        pivots.len() <= y < a.len(),
        b.len() == a.len(),
        same_values(b[x]@, a[y]@),
        same_values(b[y]@, a[x]@),
        rows_of_len(a, n),
        col <= n,
        forall|q: int| 0 <= q < a.len() && q != x && q != y ==> (#[trigger] b[q])@ == a[q]@,
    ensures
        pivot_form(b, pivots, col),
{
    assert forall|j: int| 0 <= j < pivots.len() implies (#[trigger] b[j]@[pivots[j] as int]).value() != 0 by {
        assert(b[j]@ == a[j]@);
    }
    assert forall|j: int, q: int|
        0 <= j < pivots.len() && 0 <= q < b.len() && q != j implies b[q]@[pivots[j] as int].value() == 0 by {
        if q == x {
            assert(a[y]@[pivots[j] as int].value() == 0);
            assert(b[x]@[pivots[j] as int].value() == a[y]@[pivots[j] as int].value());
        } else if q == y {
            assert(a[x]@[pivots[j] as int].value() == 0);
            assert(b[y]@[pivots[j] as int].value() == a[x]@[pivots[j] as int].value());
        } else {
            assert(a[q]@[pivots[j] as int].value() == 0);
        }
    }
    assert forall|q: int, c: int|
        pivots.len() <= q < b.len() && 0 <= c < col && !pivots.contains(c as usize) implies b[q]@[c].value() == 0 by {
        if q == x {
            assert(a[y]@[c].value() == 0);
            assert(b[x]@[c].value() == a[y]@[c].value());
        } else if q == y {
            assert(a[x]@[c].value() == 0);
            assert(b[y]@[c].value() == a[x]@[c].value());
        } else {
            assert(a[q]@[c].value() == 0);
        }
    }
}

/// Replacing row `r` by itself times a non-zero `p` minus the other row `pr`
/// times `f` keeps the kernel.
proof fn lemma_combine_same_kernel(a: Seq<Vec<BigNum>>, b: Seq<Vec<BigNum>>, r: int, pr: int, p: int, f: int, n: nat)
    requires
        0 <= r < a.len(),
        0 <= pr < a.len(),
        r != pr,
        p != 0,
        b.len() == a.len(),
        forall|q: int| 0 <= q < a.len() && q != r ==> (#[trigger] b[q])@ == a[q]@,
        forall|c: int|
            0 <= c < n ==> #[trigger] entry_value(b[r]@, c) == entry_value(a[r]@, c) * p - entry_value(a[pr]@, c) * f,
    ensures
        same_kernel(a, b, n),
{
    assert forall|z: Seq<int>| z.len() == n implies (kernel_int(a, z, n) <==> kernel_int(b, z, n)) by {
        arith::lemma_dot_int_combine(b[r]@, a[r]@, a[pr]@, p, f, z, n);
        assert(b[pr]@ == a[pr]@);
        if kernel_int(a, z, n) {
            assert forall|q: int| 0 <= q < b.len() implies #[trigger] dot_int(b[q]@, z, n) == 0 by {
                if q == r {
                    assert(dot_int(a[r]@, z, n) == 0);
                    assert(dot_int(a[pr]@, z, n) == 0);
                    assert(p * 0 - f * 0 == 0) by (nonlinear_arith);
                } else {
                    assert(dot_int(a[q]@, z, n) == 0);
                }
            }
        }
        if kernel_int(b, z, n) {
            assert forall|q: int| 0 <= q < a.len() implies #[trigger] dot_int(a[q]@, z, n) == 0 by {
                if q == r {
                    let d = dot_int(a[r]@, z, n);
                    assert(dot_int(b[r]@, z, n) == 0);
                    assert(dot_int(b[pr]@, z, n) == 0);
                    assert(d == 0) by (nonlinear_arith)
                        requires
                            0 == p * d - f * 0,
                            p != 0,
                    ;
                } else {
                    assert(dot_int(b[q]@, z, n) == 0);
                }
            }
        }
    }
}

/// The kernel is the same at every stage of a chain.
proof fn lemma_same_kernel_trans(m: Seq<Vec<BigNum>>, a: Seq<Vec<BigNum>>, b: Seq<Vec<BigNum>>, n: nat)
    requires
        same_kernel(m, a, n),
        same_kernel(a, b, n),
    ensures
        same_kernel(m, b, n),
{
    assert forall|z: Seq<int>| z.len() == n implies (kernel_int(m, z, n) <==> kernel_int(b, z, n)) by {
        assert(kernel_int(m, z, n) <==> kernel_int(a, z, n));
        assert(kernel_int(a, z, n) <==> kernel_int(b, z, n));
    }
}

/// Replacing row `r` by itself times a non-zero `p` minus pivot candidate
/// row `pr` (below the pivot rows) times `f` keeps the echelon form.
proof fn lemma_combine_pivot_form(
    a: Seq<Vec<BigNum>>,
    b: Seq<Vec<BigNum>>,
    pivots: Seq<usize>,
    col: nat,
    r: int,
    pr: int,
    p: int,
    f: int,
    n: nat,
)
    requires
        pivot_form(a, pivots, col),
        rows_of_len(a, n),
        col <= n,
        0 <= r < a.len(),
        pr == pivots.len(),
        pr < a.len(),
        r != pr,
        p != 0,
        b.len() == a.len(),
        forall|q: int| 0 <= q < a.len() && q != r ==> (#[trigger] b[q])@ == a[q]@,
        b[r]@.len() == n,
        forall|c: int| 0 <= c < n ==> (#[trigger] b[r]@[c]).value() == a[r]@[c].value() * p - a[pr]@[c].value() * f,
    ensures
        pivot_form(b, pivots, col),
{
    assert forall|j: int| 0 <= j < pivots.len() implies (#[trigger] b[j]@[pivots[j] as int]).value() != 0 by {
        let pj = pivots[j] as int;
        if j == r {
            let x = a[r]@[pj].value();
            assert(a[pr]@[pj].value() == 0);
            assert(x != 0);
            assert(b[r]@[pj].value() == x * p - 0 * f);
            assert(x * p - 0 * f != 0) by (nonlinear_arith)
                requires
                    x != 0,
                    p != 0,
            ;
        } else {
            assert(b[j]@ == a[j]@);
        }
    }
    assert forall|j: int, q: int|
        0 <= j < pivots.len() && 0 <= q < b.len() && q != j implies b[q]@[pivots[j] as int].value() == 0 by {
        let pj = pivots[j] as int;
        if q == r {
            assert(a[r]@[pj].value() == 0);
            assert(a[pr]@[pj].value() == 0);
            assert(0 * p - 0 * f == 0) by (nonlinear_arith);
        } else {
            assert(b[q]@ == a[q]@);
        }
    }
    assert forall|q: int, c: int|
        pivots.len() <= q < b.len() && 0 <= c < col && !pivots.contains(c as usize) implies b[q]@[c].value() == 0 by {
        if q == r {
            assert(a[r]@[c].value() == 0);
            assert(a[pr]@[c].value() == 0);
            assert(0 * p - 0 * f == 0) by (nonlinear_arith);
        } else {
            assert(b[q]@ == a[q]@);
        }
    }
}

/// Once column `col` has a pivot in row `pr` and is zero in every other
/// row, it joins the pivots.
proof fn lemma_new_pivot(a: Seq<Vec<BigNum>>, pivots: Seq<usize>, col: usize)
    requires
        pivot_form(a, pivots, col as nat),
        pivots.len() < a.len(),
        (a[pivots.len() as int]@[col as int]).value() != 0,
        forall|q: int| 0 <= q < a.len() && q != pivots.len() ==> (#[trigger] a[q]@[col as int]).value() == 0,
    ensures
        pivot_form(a, pivots.push(col), (col + 1) as nat),
{
    let np = pivots.push(col);
    assert forall|c: usize| #[trigger] np.contains(c) <==> (pivots.contains(c) || c == col) by {
        if np.contains(c) {
            let i = choose|i: int| 0 <= i < np.len() && np[i] == c;
            if i < pivots.len() {
                assert(pivots[i] == c);
            }
        }
        if pivots.contains(c) {
            let i = choose|i: int| 0 <= i < pivots.len() && pivots[i] == c;
            assert(np[i] == c);
        }
        if c == col {
            assert(np[pivots.len() as int] == c);
        }
    }
    assert forall|i: int| 0 <= i < np.len() implies #[trigger] np[i] < col + 1 by {
        if i < pivots.len() {
            assert(np[i] == pivots[i]);
        }
    }
    assert forall|i: int, j: int| 0 <= i < j < np.len() implies np[i] < np[j] by {
        assert(np[i] == pivots[i]);
        if j < pivots.len() {
            assert(np[j] == pivots[j]);
        }
    }
    assert forall|j: int| 0 <= j < np.len() implies (#[trigger] a[j]@[np[j] as int]).value() != 0 by {
        if j < pivots.len() {
            assert(np[j] == pivots[j]);
        }
    }
    assert forall|j: int, q: int|
        0 <= j < np.len() && 0 <= q < a.len() && q != j implies a[q]@[np[j] as int].value() == 0 by {
        if j < pivots.len() {
            assert(np[j] == pivots[j]);
        }
    }
    assert forall|q: int, c: int|
        np.len() <= q < a.len() && 0 <= c < col + 1 && !np.contains(c as usize) implies a[q]@[c].value() == 0 by {
        assert(!pivots.contains(c as usize));
        assert(c as usize != col);
    }
}

/// In echelon form with pivots on all but the columns `fs`, a kernel
/// vector that is zero on `fs` is zero.
proof fn lemma_determines(m: Seq<Vec<BigNum>>, a: Seq<Vec<BigNum>>, pivots: Seq<usize>, fs: Seq<int>, n: nat)
    requires
        n <= usize::MAX,
        same_kernel(m, a, n),
        pivot_form(a, pivots, n),
        rows_of_len(a, n),
        forall|c: int| #![trigger fs.contains(c)] 0 <= c < n && !pivots.contains(c as usize) ==> fs.contains(c),
    ensures
        determines(m, n, fs),
{
    assert forall|z: Seq<int>|
        z.len() == n && kernel_int(m, z, n) && (forall|k: int| 0 <= k < fs.len() ==> z[#[trigger] fs[k]] == 0) implies forall|c: int|
        0 <= c < n ==> #[trigger] z[c] == 0 by {
        assert(kernel_int(a, z, n));
        assert forall|c: int| 0 <= c < n implies #[trigger] z[c] == 0 by {
            if pivots.contains(c as usize) {
                let i = choose|i: int| 0 <= i < pivots.len() && pivots[i] == c as usize;
                assert(pivots[i] as int == c);
                assert(a[i]@.len() == n);
                assert(dot_int(a[i]@, z, n) == 0);
                assert forall|x: int| 0 <= x < n && x != c implies #[trigger] (entry_value(a[i]@, x) * z[x]) == 0 by {
                    if pivots.contains(x as usize) {
                        let j = choose|j: int| 0 <= j < pivots.len() && pivots[j] == x as usize;
                        assert(pivots[j] as int == x);
                        assert(j != i);
                        assert(a[i]@[pivots[j] as int].value() == 0);
                        assert(entry_value(a[i]@, x) == 0);
                    } else {
                        assert(fs.contains(x));
                        let k = choose|k: int| 0 <= k < fs.len() && fs[k] == x;
                        assert(z[fs[k]] == 0);
                    }
                    assert(entry_value(a[i]@, x) * z[x] == 0) by (nonlinear_arith)
                        requires
                            entry_value(a[i]@, x) == 0 || z[x] == 0,
                    ;
                }
                arith::lemma_dot_int_only(a[i]@, z, n, c);
                let d = entry_value(a[i]@, c);
                assert(d == a[i]@[pivots[i] as int].value());
                assert(z[c] == 0) by (nonlinear_arith)
                    requires
                        d * z[c] == 0,
                        d != 0,
                ;
            } else {
                assert(fs.contains(c));
                let k = choose|k: int| 0 <= k < fs.len() && fs[k] == c;
                assert(z[fs[k]] == 0);
            }
        }
    }
}

/// The vector over `cols` columns that is `scale` on free column `f`,
/// zero on the other columns without a pivot, and on the pivot column of
/// row `i` minus the entry of row `i` in column `f` times `scale` over the
/// pivot: the kernel vector of the echelon form `a` for column `f`.
fn candidate(a: &Vec<Vec<BigNum>>, pivots: &Vec<usize>, cols: usize, f: usize, scale: &BigNum) -> (v: Vec<BigNum>)
    requires
        rows_of_len(a@, cols as nat),
        pivot_form(a@, pivots@, cols as nat),
        f < cols,
        !pivots@.contains(f),
        scale.value() != 0,
        forall|j: int|
            0 <= j < pivots@.len() ==> arith::divides(
                abs((#[trigger] a@[j]@[pivots@[j] as int]).value()),
                abs(scale.value()),
            ),
    ensures
        v@.len() == cols,
        kernel_int(a@, vals(v@), cols as nat),
        v@[f as int].value() == scale.value(),
        forall|c: int| 0 <= c < cols && c != f && !pivots@.contains(c as usize) ==> (#[trigger] v@[c]).value() == 0,
{
    let mut v: Vec<BigNum> = Vec::new();
    for c in 0..cols
        invariant
            v@.len() == c,
            forall|x: int| 0 <= x < c ==> (#[trigger] v@[x]).value() == 0,
    {
        v.push(big_zero());
    }
    v.set(f, copy_num(scale));
    let np = pivots.len();
    for i in 0..np
        invariant
            np == pivots@.len(),
            v@.len() == cols,
            rows_of_len(a@, cols as nat),
            pivot_form(a@, pivots@, cols as nat),
            f < cols,
            !pivots@.contains(f),
            scale.value() != 0,
            v@[f as int].value() == scale.value(),
            forall|c: int|
                0 <= c < cols && c != f && !pivots@.take(i as int).contains(c as usize) ==> (#[trigger] v@[c]).value() == 0,
            forall|j: int|
                0 <= j < i ==> (#[trigger] v@[pivots@[j] as int]).value() == -(a@[j]@[f as int].value() * trunc_div(
                    scale.value(),
                    a@[j]@[pivots@[j] as int].value(),
                )),
    {
        let pc = pivots[i];
        assert(a@[i as int]@[pivots@[i as int] as int].value() != 0);
        let d = &a[i][pc];
        if !big_is_zero(d) {
            let q = big_div(scale, d);
            let coeff = big_mul(&a[i][f], &q);
            let zero = big_zero();
            let ghost v0 = v@;
            v.set(pc, big_sub(&zero, &coeff));
            proof {
                assert(pivots@.take(i + 1) == pivots@.take(i as int).push(pc));
                assert(pc != f) by {
                    assert(pivots@[i as int] == pc);
                }
                assert forall|c: int|
                    0 <= c < cols && c != f && !pivots@.take(i + 1).contains(c as usize) implies (#[trigger] v@[c]).value() == 0 by {
                    assert(c != pc as int) by {
                        assert(pivots@.take(i + 1)[i as int] == pc);
                    }
                    if pivots@.take(i as int).contains(c as usize) {
                        let w = choose|w: int| 0 <= w < i && #[trigger] pivots@.take(i as int)[w] == c as usize;
                        assert(pivots@.take(i + 1)[w] == c as usize);
                    }
                    assert(v0[c] == v@[c]);
                }
                assert forall|j: int| 0 <= j < i + 1 implies (#[trigger] v@[pivots@[j] as int]).value() == -(
                a@[j]@[f as int].value() * trunc_div(scale.value(), a@[j]@[pivots@[j] as int].value())) by {
                    if j < i {
                        assert(pivots@[j] < pivots@[i as int]);
                        assert(v@[pivots@[j] as int] == v0[pivots@[j] as int]);
                    }
                }
            }
        }
    }
    proof {
        assert(pivots@.take(np as int) == pivots@);
        let z = vals(v@);
        let n = cols as nat;
        assert forall|r: int| 0 <= r < a@.len() implies #[trigger] dot_int(a@[r]@, z, n) == 0 by {
            if r < np {
                let pr = pivots@[r] as int;
                assert(pr != f as int) by {
                    assert(pivots@[r] == pr as usize);
                }
                assert forall|x: int| 0 <= x < n && x != pr && x != f implies #[trigger] (entry_value(a@[r]@, x) * z[x]) == 0 by {
                    if pivots@.contains(x as usize) {
                        let j = choose|j: int| 0 <= j < pivots@.len() && pivots@[j] == x as usize;
                        assert(j != r);
                        assert(a@[r]@[pivots@[j] as int].value() == 0);
                    } else {
                        assert(v@[x].value() == 0);
                    }
                    assert(entry_value(a@[r]@, x) * z[x] == 0) by (nonlinear_arith)
                        requires
                            entry_value(a@[r]@, x) == 0 || z[x] == 0,
                    ;
                }
                arith::lemma_dot_int_pair(a@[r]@, z, n, pr, f as int);
                let d = a@[r]@[pr].value();
                let b = a@[r]@[f as int].value();
                let s = scale.value();
                let q = trunc_div(s, d);
                assert(arith::divides(abs(d), abs(s)));
                arith::lemma_trunc_div_exact(s, d);
                assert(z[pr] == -(b * q));
                assert(z[f as int] == s);
                assert(d * (-(b * q)) + b * s == 0) by (nonlinear_arith)
                    requires
                        q * d == s,
                ;
            } else {
                assert forall|x: int| 0 <= x < n implies #[trigger] (entry_value(a@[r]@, x) * z[x]) == 0 by {
                    if pivots@.contains(x as usize) {
                        let j = choose|j: int| 0 <= j < pivots@.len() && pivots@[j] == x as usize;
                        assert(a@[r]@[pivots@[j] as int].value() == 0);
                    } else {
                        assert(a@[r]@[x].value() == 0);
                    }
                    assert(entry_value(a@[r]@, x) == 0);
                    assert(entry_value(a@[r]@, x) * z[x] == 0) by (nonlinear_arith)
                        requires
                            entry_value(a@[r]@, x) == 0,
                    ;
                }
                arith::lemma_dot_int_zero(a@[r]@, z, n);
            }
        }
    }
    v
}

/// `v` divided by the greatest common divisor of its entries and, where
/// that leaves column `f` negative, negated; with the factor `k` such that
/// `v` is `k` times the result.
fn normalize(v: Vec<BigNum>, f: usize) -> (r: (Vec<BigNum>, Ghost<int>))
    requires
        f < v@.len(),
        v@[f as int].value() != 0,
    ensures
        r.0@.len() == v@.len(),
        r.1@ != 0,
        forall|c: int| 0 <= c < v@.len() ==> #[trigger] v@[c].value() == r.1@ * r.0@[c].value(),
        gcd_of(r.0@, v@.len()) == 1,
        r.0@[f as int].value() > 0,
{
    let n = v.len();
    let ghost v0 = v@;
    let mut v = v;
    let g = gcd_exec(&v);
    let ghost gv = g.value();
    proof {
        arith::lemma_gcd_of_divides(v0, n as nat, f as int);
        assert(gv != 0);
    }
    if !big_is_zero(&g) {
        for c in 0..n
            invariant
                n == v0.len(),
                v@.len() == n,
                g.value() == gv,
                gv > 0,
                gv == gcd_of(v0, n as nat),
                forall|x: int| 0 <= x < c ==> #[trigger] v@[x].value() == trunc_div(v0[x].value(), gv),
                forall|x: int| c <= x < n ==> #[trigger] v@[x] == v0[x],
        {
            let x = big_div(&v[c], &g);
            v.set(c, x);
        }
    }
    let ghost w = v@;
    proof {
        assert forall|c: int| 0 <= c < n implies #[trigger] v0[c].value() == gv * w[c].value() && abs(v0[c].value()) == gv * abs(
            w[c].value(),
        ) by {
            arith::lemma_gcd_of_divides(v0, n as nat, c);
            arith::lemma_trunc_div_exact(v0[c].value(), gv);
            let y = w[c].value();
            assert(abs(y * gv) == gv * abs(y)) by (nonlinear_arith)
                requires
                    gv > 0,
            ;
        }
        arith::lemma_gcd_of_scale(v0, w, gv as nat, n as nat);
        assert(gcd_of(w, n as nat) == 1) by (nonlinear_arith)
            requires
                gv == gv * gcd_of(w, n as nat),
                gv > 0,
        ;
        assert(w[f as int].value() != 0) by (nonlinear_arith)
            requires
                v0[f as int].value() == gv * w[f as int].value(),
                v0[f as int].value() != 0,
        ;
    }
    let ghost mut k: int = gv;
    if big_is_negative(&v[f]) {
        for c in 0..n
            invariant
                v@.len() == n,
                w.len() == n,
                forall|x: int| 0 <= x < c ==> #[trigger] v@[x].value() == -w[x].value(),
                forall|x: int| c <= x < n ==> #[trigger] v@[x] == w[x],
        {
            let zero = big_zero();
            let x = big_sub(&zero, &v[c]);
            v.set(c, x);
        }
        proof {
            k = -gv;
            assert forall|c: int| 0 <= c < n implies #[trigger] abs(v@[c].value()) == 1 * abs(w[c].value()) by {
            }
            arith::lemma_gcd_of_scale(v@, w, 1, n as nat);
            assert forall|c: int| 0 <= c < n implies #[trigger] v0[c].value() == k * v@[c].value() by {
                assert(v0[c].value() == gv * w[c].value());
                assert(v@[c].value() == -w[c].value());
                assert(gv * w[c].value() == (-gv) * (-w[c].value())) by (nonlinear_arith);
            }
        }
    } else {
        proof {
            assert(v@ == w);
            assert forall|c: int| 0 <= c < n implies #[trigger] v0[c].value() == k * v@[c].value() by {
                assert(v0[c].value() == gv * w[c].value());
            }
        }
    }
    (v, Ghost(k))
}

/// The kernel of `matrix` (rows shorter than `cols` count as padded with
/// zeros), over `cols` columns: for each column without a pivot, the
/// coprime integer vector in the kernel that is positive there and zero on
/// every other such column. These columns determine the whole kernel: a
/// kernel vector zero on all of them is zero.
pub fn compute_nullspace(matrix: &Vec<Vec<BigNum>>, cols: usize) -> (basis: Vec<Vec<BigNum>>)
    ensures
        kernel_basis(matrix@, cols as nat, basis@),
        exists|fs: Seq<int>| own_columns(basis@, fs, cols as nat) && #[trigger] determines(matrix@, cols as nat, fs),
{
    let ghost m = matrix@;
    let ghost nc = cols as nat;
    let mut basis: Vec<Vec<BigNum>> = Vec::new();
    if cols == 0 {
        assert(own_columns(basis@, Seq::<int>::empty(), 0));
        assert(determines(m, 0, Seq::<int>::empty()));
        return basis;
    }
    let rows = matrix.len();
    let mut a = dense_rows(matrix, cols);
    proof {
        lemma_dense_same_kernel(m, a@, nc);
    }
    let mut pivots: Vec<usize> = Vec::new();
    let mut pivot_row: usize = 0;
    for col in 0..cols
        invariant
            a@.len() == rows,
            rows == m.len(),
            nc == cols,
            rows_of_len(a@, nc),
            pivots@.len() == pivot_row,
            pivot_row <= rows,
            pivot_form(a@, pivots@, col as nat),
            same_kernel(m, a@, nc),
    {
        if pivot_row < rows {
            let mut found: Option<usize> = None;
            for r in pivot_row..rows
                invariant
                    a@.len() == rows,
                    col < cols,
                    nc == cols,
                    rows_of_len(a@, nc),
                    found matches Some(x) ==> pivot_row <= x < rows && a@[x as int]@[col as int].value() != 0,
                    found is None ==> forall|q: int| pivot_row <= q < r ==> (#[trigger] a@[q]@[col as int]).value() == 0,
            {
                if found.is_none() && !big_is_zero(&a[r][col]) {
                    found = Some(r);
                }
            }
            match found {
                Some(ri) => {
                    if ri != pivot_row {
                        let ghost a_pre = a@;
                        let lower = copy_row(&a[ri]);
                        let upper = copy_row(&a[pivot_row]);
                        a.set(ri, upper);
                        a.set(pivot_row, lower);
                        proof {
                            assert forall|q: int| 0 <= q < a_pre.len() && q != ri && q != pivot_row implies (#[trigger] a@[q])@
                                == a_pre[q]@ by {
                            }
                            lemma_swap_same_kernel(a_pre, a@, ri as int, pivot_row as int, nc);
                            lemma_same_kernel_trans(m, a_pre, a@, nc);
                            lemma_swap_pivot_form(a_pre, a@, pivots@, col as nat, ri as int, pivot_row as int, nc);
                        }
                    }
                    assert(a@[pivot_row as int]@[col as int].value() != 0);
                    let p = copy_num(&a[pivot_row][col]);
                    let prow = copy_row(&a[pivot_row]);
                    let ghost a0 = a@;
                    for r in 0..rows
                        invariant
                            a@.len() == rows,
                            rows == m.len(),
                            nc == cols,
                            rows_of_len(a@, nc),
                            prow@.len() == cols,
                            pivot_row < rows,
                            col < cols,
                            pivots@.len() == pivot_row,
                            p.value() != 0,
                            p.value() == prow@[col as int].value(),
                            same_values(prow@, a0[pivot_row as int]@),
                            a@[pivot_row as int] == a0[pivot_row as int],
                            forall|q: int| r <= q < rows ==> (#[trigger] a@[q])@ == a0[q]@,
                            forall|q: int| 0 <= q < r && q != pivot_row ==> (#[trigger] a@[q]@[col as int]).value() == 0,
                            pivot_form(a@, pivots@, col as nat),
                            same_kernel(m, a@, nc),
                    {
                        if r != pivot_row {
                            let f = copy_num(&a[r][col]);
                            if !big_is_zero(&f) {
                                let ghost a1 = a@;
                                let nr = combine(&a[r], &p, &f, &prow);
                                a.set(r, nr);
                                proof {
                                    assert forall|q: int| 0 <= q < a1.len() && q != r implies (#[trigger] a@[q])@ == a1[q]@ by {
                                    }
                                    assert forall|c: int| 0 <= c < nc implies (#[trigger] a@[r as int]@[c]).value()
                                        == a1[r as int]@[c].value() * p.value() - a1[pivot_row as int]@[c].value()
                                        * f.value() by {
                                        assert(prow@[c].value() == a0[pivot_row as int]@[c].value());
                                    }
                                    assert forall|c: int| 0 <= c < nc implies #[trigger] entry_value(a@[r as int]@, c)
                                        == entry_value(a1[r as int]@, c) * p.value() - entry_value(a1[pivot_row as int]@, c)
                                        * f.value() by {
                                        assert(a1[r as int]@.len() == nc);
                                        assert(a1[pivot_row as int]@.len() == nc);
                                        assert(a@[r as int]@[c].value() == a1[r as int]@[c].value() * p.value()
                                            - a1[pivot_row as int]@[c].value() * f.value());
                                    }
                                    lemma_combine_same_kernel(a1, a@, r as int, pivot_row as int, p.value(), f.value(), nc);
                                    lemma_same_kernel_trans(m, a1, a@, nc);
                                    lemma_combine_pivot_form(
                                        a1,
                                        a@,
                                        pivots@,
                                        col as nat,
                                        r as int,
                                        pivot_row as int,
                                        p.value(),
                                        f.value(),
                                        nc,
                                    );
                                    assert(a@[r as int]@[col as int].value() == f.value() * p.value() - p.value() * f.value());
                                    assert(f.value() * p.value() - p.value() * f.value() == 0) by (nonlinear_arith);
                                }
                            }
                        }
                    }
                    proof {
                        lemma_new_pivot(a@, pivots@, col);
                    }
                    pivots.push(col);
                    pivot_row = pivot_row + 1;
                },
                None => {
                    proof {
                        assert forall|q: int, c: int|
                            #![trigger a@[q]@[c]]
                            pivots@.len() <= q < a@.len() && 0 <= c < col + 1 && !pivots@.contains(c as usize) implies a@[q]@[c].value()
                                == 0 by {
                            if c < col {
                            }
                        }
                    }
                },
            }
        } else {
            proof {
                assert(pivot_form(a@, pivots@, (col + 1) as nat));
            }
        }
    }
    let mut is_pivot: Vec<bool> = Vec::new();
    for c in 0..cols
        invariant
            is_pivot@.len() == c,
            forall|x: int| 0 <= x < c ==> !(#[trigger] is_pivot@[x]),
    {
        is_pivot.push(false);
    }
    for i in 0..pivots.len()
        invariant
            is_pivot@.len() == cols,
            pivot_form(a@, pivots@, cols as nat),
            forall|x: int| 0 <= x < cols ==> (#[trigger] is_pivot@[x] <==> pivots@.take(i as int).contains(x as usize)),
    {
        let ghost before = is_pivot@;
        is_pivot.set(pivots[i], true);
        proof {
            assert(pivots@.take(i + 1) == pivots@.take(i as int).push(pivots@[i as int]));
            assert forall|x: int| 0 <= x < cols implies (#[trigger] is_pivot@[x] <==> pivots@.take(i + 1).contains(x as usize)) by {
                if pivots@.take(i + 1).contains(x as usize) {
                    let w = choose|w: int| 0 <= w < i + 1 && #[trigger] pivots@.take(i + 1)[w] == x as usize;
                    if w < i {
                        assert(pivots@.take(i as int)[w] == x as usize);
                    }
                }
                if pivots@.take(i as int).contains(x as usize) {
                    let w = choose|w: int| 0 <= w < i && #[trigger] pivots@.take(i as int)[w] == x as usize;
                    assert(pivots@.take(i + 1)[w] == x as usize);
                }
                if x == pivots@[i as int] as int {
                    assert(pivots@.take(i + 1)[i as int] == x as usize);
                }
            }
        }
    }
    assert(pivots@.take(pivots@.len() as int) == pivots@);
    let mut free: Vec<usize> = Vec::new();
    for c in 0..cols
        invariant
            is_pivot@.len() == cols,
            forall|x: int| 0 <= x < cols ==> (#[trigger] is_pivot@[x] <==> pivots@.contains(x as usize)),
            forall|k: int| 0 <= k < free@.len() ==> (#[trigger] free@[k]) < c && !pivots@.contains(free@[k]),
            forall|j: int, k: int| 0 <= j < k < free@.len() ==> free@[j] < free@[k],
            forall|x: int| #![trigger free@.contains(x as usize)] 0 <= x < c && !pivots@.contains(x as usize) ==> free@.contains(x as usize),
    {
        if !is_pivot[c] {
            let ghost fr0 = free@;
            free.push(c);
            proof {
                assert forall|x: int| 0 <= x < c + 1 && !pivots@.contains(x as usize) implies #[trigger] free@.contains(x as usize) by {
                    if x == c {
                        assert(free@[free@.len() - 1] == x as usize);
                    } else {
                        assert(fr0.contains(x as usize));
                        let k = choose|k: int| 0 <= k < fr0.len() && fr0[k] == x as usize;
                        assert(free@[k] == x as usize);
                    }
                }
            }
        }
    }
    let mut scale = big_from_u64(1);
    for i in 0..pivots.len()
        invariant
            a@.len() == rows,
            rows_of_len(a@, nc),
            nc == cols,
            pivot_form(a@, pivots@, cols as nat),
            scale.value() != 0,
            forall|j: int|
                0 <= j < i ==> arith::divides(abs((#[trigger] a@[j]@[pivots@[j] as int]).value()), abs(scale.value())),
    {
        let ghost s0 = scale.value();
        let ghost d = a@[i as int]@[pivots@[i as int] as int].value();
        scale = big_mul(&scale, &a[i][pivots[i]]);
        proof {
            assert(d != 0);
            assert(abs(s0 * d) == abs(s0) * abs(d) && abs(s0) * abs(d) == abs(d) * abs(s0)) by (nonlinear_arith);
            assert(s0 * d != 0) by (nonlinear_arith)
                requires
                    s0 != 0,
                    d != 0,
            ;
            arith::lemma_divides_intro(abs(d), abs(scale.value()), abs(s0));
            arith::lemma_divides_intro(abs(s0), abs(scale.value()), abs(d));
            assert forall|j: int| 0 <= j < i + 1 implies arith::divides(
                abs((#[trigger] a@[j]@[pivots@[j] as int]).value()),
                abs(scale.value()),
            ) by {
                if j < i {
                    arith::lemma_divides_trans(abs(a@[j]@[pivots@[j] as int].value()), abs(s0), abs(scale.value()));
                }
            }
        }
    }
    let ghost mut fs: Seq<int> = Seq::empty();
    for fi in 0..free.len()
        invariant
            m == matrix@,
            a@.len() == rows,
            rows == m.len(),
            nc == cols,
            rows_of_len(a@, nc),
            pivot_form(a@, pivots@, cols as nat),
            same_kernel(m, a@, nc),
            scale.value() != 0,
            forall|j: int|
                0 <= j < pivots@.len() ==> arith::divides(abs((#[trigger] a@[j]@[pivots@[j] as int]).value()), abs(scale.value())),
            forall|k: int| 0 <= k < free@.len() ==> (#[trigger] free@[k]) < cols && !pivots@.contains(free@[k]),
            forall|j: int, k: int| 0 <= j < k < free@.len() ==> free@[j] < free@[k],
            fs.len() == fi,
            basis@.len() == fi,
            forall|k: int| 0 <= k < fi ==> #[trigger] fs[k] == free@[k] as int,
            forall|k: int|
                0 <= k < basis@.len() ==> (#[trigger] basis@[k])@.len() == cols && in_kernel(matrix@, basis@[k]@)
                    && gcd_of(basis@[k]@, cols as nat) == 1 && basis@[k]@[fs[k]].value() > 0,
            forall|k: int, j: int|
                0 <= k < basis@.len() && 0 <= j < free@.len() && free@[j] != fs[k] ==> (#[trigger] basis@[k])@[#[trigger] free@[j] as int].value() == 0,
    {
        let f = free[fi];
        let v = candidate(&a, &pivots, cols, f, &scale);
        let (w, Ghost(k)) = normalize(v, f);
        proof {
            let zv = vals(v@);
            let zw = vals(w@);
            assert forall|c: int| 0 <= c < nc implies #[trigger] zv[c] == k * zw[c] by {
                assert(v@[c].value() == k * w@[c].value());
            }
            assert forall|r: int| 0 <= r < a@.len() implies #[trigger] dot_int(a@[r]@, zw, nc) == 0 by {
                arith::lemma_dot_int_scale(a@[r]@, zv, zw, k, nc);
                assert(dot_int(a@[r]@, zv, nc) == 0);
                let d = dot_int(a@[r]@, zw, nc);
                assert(d == 0) by (nonlinear_arith)
                    requires
                        k * d == 0,
                        k != 0,
                ;
            }
            assert(kernel_int(a@, zw, nc));
            assert(zw.len() == nc);
            assert(kernel_int(m, zw, nc));
            assert forall|r: int| 0 <= r < m.len() implies #[trigger] dot(m[r]@, w@, w@.len()) == 0 by {
                arith::lemma_dot_vals(m[r]@, w@, nc);
                assert(dot_int(m[r]@, zw, nc) == 0);
            }
            assert forall|j: int| 0 <= j < free@.len() && free@[j] != f implies (#[trigger] free@[j]) < w@.len()
                && w@[free@[j] as int].value() == 0 by {
                let c = free@[j] as int;
                assert(!pivots@.contains(free@[j]));
                assert(v@[c].value() == 0);
                assert(v@[c].value() == k * w@[c].value());
                assert(w@[c].value() == 0) by (nonlinear_arith)
                    requires
                        0 == k * w@[c].value(),
                        k != 0,
                ;
            }
        }
        proof {
            assert(kernel_int(m, vals(w@), nc));
            assert forall|r: int| 0 <= r < matrix@.len() implies #[trigger] dot(matrix@[r]@, w@, w@.len()) == 0 by {
                arith::lemma_dot_vals(matrix@[r]@, w@, nc);
                assert(dot_int(m[r]@, vals(w@), nc) == 0);
            }
            assert(in_kernel(matrix@, w@));
            assert(gcd_of(w@, w@.len()) == 1);
            assert(w@[f as int].value() > 0);
        }
        let ok = certified(matrix, &w, &free, f);
        assert(ok);
        let ghost b0 = basis@;
        basis.push(w);
        proof {
            fs = fs.push(f as int);
            assert forall|kk: int, j: int|
                0 <= kk < basis@.len() && 0 <= j < free@.len() && free@[j] != fs[kk] implies (#[trigger] basis@[kk])@[#[trigger] free@[j] as int].value() == 0 by {
                if kk < b0.len() {
                    assert(basis@[kk] == b0[kk]);
                }
            }
        }
    }
    proof {
        assert forall|j: int, k: int|
            0 <= j < fs.len() && 0 <= k < fs.len() && j != k implies (#[trigger] basis@[j])@[#[trigger] fs[k]].value() == 0 by {
            assert(fs[k] == free@[k] as int);
            assert(free@[k] != fs[j]) by {
                if j < k {
                    assert(free@[j] < free@[k]);
                } else {
                    assert(free@[k] < free@[j]);
                }
            }
            assert(basis@[j]@[free@[k] as int].value() == 0);
        }
        assert forall|k: int| 0 <= k < fs.len() implies 0 <= #[trigger] fs[k] < cols && basis@[k]@[fs[k]].value() > 0 by {
            assert(fs[k] == free@[k] as int);
        }
        assert(own_columns(basis@, fs, nc));
        assert forall|c: int| 0 <= c < nc && !pivots@.contains(c as usize) implies #[trigger] fs.contains(c) by {
            assert(free@.contains(c as usize));
            let k = choose|k: int| 0 <= k < free@.len() && free@[k] == c as usize;
            assert(fs[k] == c);
        }
        assert(nc <= usize::MAX);
        lemma_determines(m, a@, pivots@, fs, nc);
    }
    basis
}

/// The amount by which firing `t` changes the tokens on `p`.
pub open spec fn effect(net: PtNet, p: usize, t: usize) -> int {
    net.produced(t, p) - net.consumed(t, p)
}

/// The sum over the first `n` places of the effect of `t` times `y`.
pub open spec fn place_sum(net: PtNet, y: Seq<BigNum>, t: usize, n: nat) -> int
    decreases n,
{
    if n == 0 {
        0
    } else {
        place_sum(net, y, t, (n - 1) as nat) + effect(net, (n - 1) as usize, t) * y[n - 1].value()
    }
}

/// The sum over the first `n` transitions of the effect on `p` times `x`.
pub open spec fn transition_sum(net: PtNet, x: Seq<BigNum>, p: usize, n: nat) -> int
    decreases n,
{
    if n == 0 {
        0
    } else {
        transition_sum(net, x, p, (n - 1) as nat) + effect(net, p, (n - 1) as usize) * x[n - 1].value()
    }
}

/// The sum over the first `n` places of the effect of `t` times the
/// integers `z`.
pub open spec fn place_sum_int(net: PtNet, z: Seq<int>, t: usize, n: nat) -> int
    decreases n,
{
    if n == 0 {
        0
    } else {
        place_sum_int(net, z, t, (n - 1) as nat) + effect(net, (n - 1) as usize, t) * z[n - 1]
    }
}

/// The sum over the first `n` transitions of the effect on `p` times the
/// integers `z`.
pub open spec fn transition_sum_int(net: PtNet, z: Seq<int>, p: usize, n: nat) -> int
    decreases n,
{
    if n == 0 {
        0
    } else {
        transition_sum_int(net, z, p, (n - 1) as nat) + effect(net, p, (n - 1) as usize) * z[n - 1]
    }
}

/// Whether the integers `z`, one per place, are a place invariant of `net`:
/// `Σ_p z[p]·C[p][t] = 0` for every transition `t`.
pub open spec fn is_place_invariant(net: PtNet, z: Seq<int>) -> bool {
    &&& z.len() == net.places@.len()
    &&& forall|t: int|
        0 <= t < net.transitions@.len() ==> #[trigger] place_sum_int(net, z, t as usize, net.places@.len()) == 0
}

/// Whether the integers `z`, one per transition, are a transition
/// invariant of `net`: `Σ_t C[p][t]·z[t] = 0` for every place `p`.
pub open spec fn is_transition_invariant(net: PtNet, z: Seq<int>) -> bool {
    &&& z.len() == net.transitions@.len()
    &&& forall|p: int|
        0 <= p < net.places@.len() ==> #[trigger] transition_sum_int(net, z, p as usize, net.transitions@.len()) == 0
}

/// Whether the places `fs` determine the place invariants of `net`: the
/// only place invariant that is zero on all of them is zero.
pub open spec fn places_determined(net: PtNet, fs: Seq<int>) -> bool {
    forall|z: Seq<int>|
        #![trigger is_place_invariant(net, z)]
        is_place_invariant(net, z) && (forall|k: int| 0 <= k < fs.len() ==> z[#[trigger] fs[k]] == 0) ==> forall|p: int|
            0 <= p < net.places@.len() ==> #[trigger] z[p] == 0
}

/// Whether the transitions `fs` determine the transition invariants of
/// `net`: the only transition invariant that is zero on all of them is zero.
pub open spec fn transitions_determined(net: PtNet, fs: Seq<int>) -> bool {
    forall|z: Seq<int>|
        #![trigger is_transition_invariant(net, z)]
        is_transition_invariant(net, z) && (forall|k: int| 0 <= k < fs.len() ==> z[#[trigger] fs[k]] == 0)
            ==> forall|t: int| 0 <= t < net.transitions@.len() ==> #[trigger] z[t] == 0
}

/// The values of the vectors of `r`.
pub open spec fn values_of(r: Seq<Vec<BigNum>>) -> Seq<Seq<int>> {
    Seq::new(r.len(), |k: int| vals(r[k]@))
}

/// A row holding the effects on the places of transition `t` sums against
/// the integers `z` as `place_sum_int` does.
proof fn lemma_place_sum_int_is_dot(net: PtNet, row: Seq<BigNum>, z: Seq<int>, t: usize, n: nat)
    requires
        n <= row.len(),
        forall|p: int| 0 <= p < row.len() ==> #[trigger] row[p].value() == effect(net, p as usize, t),
    ensures
        dot_int(row, z, n) == place_sum_int(net, z, t, n),
    decreases n,
{
    if n > 0 {
        lemma_place_sum_int_is_dot(net, row, z, t, (n - 1) as nat);
        assert(entry_value(row, n - 1) == effect(net, (n - 1) as usize, t));
    }
}

/// A row holding the effects of the transitions on place `p` sums against
/// the integers `z` as `transition_sum_int` does.
proof fn lemma_transition_sum_int_is_dot(net: PtNet, row: Seq<BigNum>, z: Seq<int>, p: usize, n: nat)
    requires
        n <= row.len(),
        forall|t: int| 0 <= t < row.len() ==> #[trigger] row[t].value() == effect(net, p, t as usize),
    ensures
        dot_int(row, z, n) == transition_sum_int(net, z, p, n),
    decreases n,
{
    if n > 0 {
        lemma_transition_sum_int_is_dot(net, row, z, p, (n - 1) as nat);
        assert(entry_value(row, n - 1) == effect(net, p, (n - 1) as usize));
    }
}

/// The place sum over big numbers is the one over their values.
proof fn lemma_place_sum_vals(net: PtNet, y: Seq<BigNum>, t: usize, n: nat)
    requires
        n <= y.len(),
    ensures
        place_sum(net, y, t, n) == place_sum_int(net, vals(y), t, n),
    decreases n,
{
    if n > 0 {
        lemma_place_sum_vals(net, y, t, (n - 1) as nat);
    }
}

/// The transition sum over big numbers is the one over their values.
proof fn lemma_transition_sum_vals(net: PtNet, y: Seq<BigNum>, p: usize, n: nat)
    requires
        n <= y.len(),
    ensures
        transition_sum(net, y, p, n) == transition_sum_int(net, vals(y), p, n),
    decreases n,
{
    if n > 0 {
        lemma_transition_sum_vals(net, y, p, (n - 1) as nat);
    }
}

/// Place sums are linear.
proof fn lemma_place_sum_lin(net: PtNet, u: Seq<int>, c: int, v: Seq<int>, t: usize, n: nat, m: nat)
    requires
        m <= n,
        u.len() == n,
        v.len() == n,
    ensures
        place_sum_int(net, span::lin(u, c, v, n), t, m) == place_sum_int(net, u, t, m) + c * place_sum_int(net, v, t, m),
    decreases m,
{
    if m > 0 {
        let k = (m - 1) as nat;
        lemma_place_sum_lin(net, u, c, v, t, n, k);
        let e = effect(net, k as usize, t);
        let su = place_sum_int(net, u, t, k);
        let sv = place_sum_int(net, v, t, k);
        assert(span::lin(u, c, v, n)[k as int] == u[k as int] + c * v[k as int]);
        assert(su + c * sv + e * (u[k as int] + c * v[k as int]) == (su + e * u[k as int]) + c * (sv + e * v[k as int]))
            by (nonlinear_arith);
    }
}

/// Transition sums are linear.
proof fn lemma_transition_sum_lin(net: PtNet, u: Seq<int>, c: int, v: Seq<int>, p: usize, n: nat, m: nat)
    requires
        m <= n,
        u.len() == n,
        v.len() == n,
    ensures
        transition_sum_int(net, span::lin(u, c, v, n), p, m) == transition_sum_int(net, u, p, m) + c
            * transition_sum_int(net, v, p, m),
    decreases m,
{
    if m > 0 {
        let k = (m - 1) as nat;
        lemma_transition_sum_lin(net, u, c, v, p, n, k);
        let e = effect(net, p, k as usize);
        let su = transition_sum_int(net, u, p, k);
        let sv = transition_sum_int(net, v, p, k);
        assert(span::lin(u, c, v, n)[k as int] == u[k as int] + c * v[k as int]);
        assert(su + c * sv + e * (u[k as int] + c * v[k as int]) == (su + e * u[k as int]) + c * (sv + e * v[k as int]))
            by (nonlinear_arith);
    }
}

/// Own columns of big-number vectors are own columns of their values.
proof fn lemma_own_values(r: Seq<Vec<BigNum>>, fs: Seq<int>, n: nat)
    requires
        own_columns(r, fs, n),
        forall|k: int| 0 <= k < r.len() ==> (#[trigger] r[k])@.len() == n,
    ensures
        span::own_int_columns(values_of(r), fs, n),
{
    let vs = values_of(r);
    assert forall|k: int| 0 <= k < fs.len() implies 0 <= #[trigger] fs[k] < n && vs[k][fs[k]] > 0 by {
        assert(r[k]@[fs[k]].value() > 0);
    }
    assert forall|j: int, k: int| 0 <= j < fs.len() && 0 <= k < fs.len() && j != k implies (#[trigger] vs[j])[#[trigger] fs[k]]
        == 0 by {
        assert(r[j]@[fs[k]].value() == 0);
    }
}

/// Every place invariant of a net is spanned by the place invariants that
/// `place_invariants` returns: a positive multiple of it is an integer
/// combination of them. So no conservation law of the net is missing from
/// the result.
pub proof fn law_place_invariants_span(net: PtNet, r: Seq<Vec<BigNum>>, fs: Seq<int>, y: Seq<int>)
    requires
        forall|k: int|
            0 <= k < r.len() ==> (#[trigger] r[k])@.len() == net.places@.len() && forall|t: int|
                0 <= t < net.transitions@.len() ==> #[trigger] place_sum(net, r[k]@, t as usize, net.places@.len()) == 0,
        own_columns(r, fs, net.places@.len()),
        places_determined(net, fs),
        is_place_invariant(net, y),
    ensures
        exists|d: int, lam: Seq<int>| #[trigger] span::represents(y, values_of(r), d, lam, net.places@.len()),
{
    let n = net.places@.len();
    let kern = |z: Seq<int>| is_place_invariant(net, z);
    lemma_own_values(r, fs, n);
    let vs = values_of(r);
    assert forall|i: int| 0 <= i < vs.len() implies kern(#[trigger] vs[i]) by {
        assert forall|t: int| 0 <= t < net.transitions@.len() implies #[trigger] place_sum_int(net, vs[i], t as usize, n) == 0 by {
            lemma_place_sum_vals(net, r[i]@, t as usize, n);
            assert(place_sum(net, r[i]@, t as usize, n) == 0);
        }
    }
    assert forall|u: Seq<int>, c: int, v: Seq<int>| u.len() == n && v.len() == n && kern(u) && kern(v) implies #[trigger] kern(
        span::lin(u, c, v, n),
    ) by {
        assert forall|t: int| 0 <= t < net.transitions@.len() implies #[trigger] place_sum_int(net, span::lin(u, c, v, n), t as usize, n)
            == 0 by {
            lemma_place_sum_lin(net, u, c, v, t as usize, n, n);
            assert(place_sum_int(net, u, t as usize, n) == 0);
            assert(place_sum_int(net, v, t as usize, n) == 0);
            assert(c * 0 == 0) by (nonlinear_arith);
        }
    }
    assert forall|z: Seq<int>|
        z.len() == n && #[trigger] kern(z) && (forall|k: int| 0 <= k < fs.len() ==> z[#[trigger] fs[k]] == 0) implies forall|p: int|
        0 <= p < n ==> #[trigger] z[p] == 0 by {
        assert(is_place_invariant(net, z));
    }
    span::lemma_own_columns_span(kern, vs, fs, n, y);
}

/// Every transition invariant of a net is spanned by the transition
/// invariants that `transition_invariants` returns: a positive multiple of
/// it is an integer combination of them.
pub proof fn law_transition_invariants_span(net: PtNet, r: Seq<Vec<BigNum>>, fs: Seq<int>, x: Seq<int>)
    requires
        forall|k: int|
            0 <= k < r.len() ==> (#[trigger] r[k])@.len() == net.transitions@.len() && forall|p: int|
                0 <= p < net.places@.len() ==> #[trigger] transition_sum(net, r[k]@, p as usize, net.transitions@.len()) == 0,
        own_columns(r, fs, net.transitions@.len()),
        transitions_determined(net, fs),
        is_transition_invariant(net, x),
    ensures
        exists|d: int, lam: Seq<int>| #[trigger] span::represents(x, values_of(r), d, lam, net.transitions@.len()),
{
    let n = net.transitions@.len();
    let kern = |z: Seq<int>| is_transition_invariant(net, z);
    lemma_own_values(r, fs, n);
    let vs = values_of(r);
    assert forall|i: int| 0 <= i < vs.len() implies kern(#[trigger] vs[i]) by {
        assert forall|p: int| 0 <= p < net.places@.len() implies #[trigger] transition_sum_int(net, vs[i], p as usize, n) == 0 by {
            lemma_transition_sum_vals(net, r[i]@, p as usize, n);
            assert(transition_sum(net, r[i]@, p as usize, n) == 0);
        }
    }
    assert forall|u: Seq<int>, c: int, v: Seq<int>| u.len() == n && v.len() == n && kern(u) && kern(v) implies #[trigger] kern(
        span::lin(u, c, v, n),
    ) by {
        assert forall|p: int| 0 <= p < net.places@.len() implies #[trigger] transition_sum_int(net, span::lin(u, c, v, n), p as usize, n)
            == 0 by {
            lemma_transition_sum_lin(net, u, c, v, p as usize, n, n);
            assert(transition_sum_int(net, u, p as usize, n) == 0);
            assert(transition_sum_int(net, v, p as usize, n) == 0);
            assert(c * 0 == 0) by (nonlinear_arith);
        }
    }
    assert forall|z: Seq<int>|
        z.len() == n && #[trigger] kern(z) && (forall|k: int| 0 <= k < fs.len() ==> z[#[trigger] fs[k]] == 0) implies forall|t: int|
        0 <= t < n ==> #[trigger] z[t] == 0 by {
        assert(is_transition_invariant(net, z));
    }
    span::lemma_own_columns_span(kern, vs, fs, n, x);
}

/// The effect of `t` on `p`, computed exactly.
fn effect_of(net: &PtNet, p: usize, t: usize) -> (r: BigNum)
    ensures
        r.value() == effect(*net, p, t),
{
    let mut acc = big_zero();
    let n = net.arcs.len();
    for k in 0..n
        invariant
            n == net.arcs@.len(),
            acc.value() == crate::pt::weight_sum(net.arcs@.take(k as int), t, p, crate::pt::ArcDir::Output)
                - crate::pt::weight_sum(net.arcs@.take(k as int), t, p, crate::pt::ArcDir::Input),
    {
        let arc = &net.arcs[k];
        proof {
            assert(net.arcs@.take(k + 1).drop_last() == net.arcs@.take(k as int));
            assert(net.arcs@.take(k + 1).last() == net.arcs@[k as int]);
        }
        if arc.transition.0 == t && arc.place.0 == p {
            match arc.direction {
                crate::pt::ArcDir::Output => {
                    let w = big_from_u64(arc.weight as u64);
                    acc = big_add(&acc, &w);
                },
                crate::pt::ArcDir::Input => {
                    let w = big_from_u64(arc.weight as u64);
                    acc = big_sub(&acc, &w);
                },
                _ => {},
            }
        }
    }
    assert(net.arcs@.take(n as int) == net.arcs@);
    acc
}

/// The place invariants of `net`: vectors `y` over the places with
/// `Σ_p y[p]·C[p][t] = 0` for every transition `t`, each with coprime
/// entries and positive on a place of its own where the others are zero.
pub fn place_invariants(net: &PtNet) -> (r: Vec<Vec<BigNum>>)
    ensures
        forall|k: int|
            0 <= k < r@.len() ==> (#[trigger] r@[k])@.len() == net.places@.len() && gcd_of(
                r@[k]@,
                net.places@.len(),
            ) == 1 && forall|t: int| 0 <= t < net.transitions@.len() ==> #[trigger] place_sum(*net, r@[k]@, t as usize, net.places@.len()) == 0,
        exists|fs: Seq<int>| #[trigger] own_columns(r@, fs, net.places@.len()),
        exists|fs: Seq<int>| own_columns(r@, fs, net.places@.len()) && #[trigger] places_determined(*net, fs),
{
    let np = net.places.len();
    let nt = net.transitions.len();
    let mut rows: Vec<Vec<BigNum>> = Vec::new();
    for t in 0..nt
        invariant
            rows@.len() == t,
            np == net.places@.len(),
            forall|q: int| 0 <= q < t ==> (#[trigger] rows@[q])@.len() == np,
            forall|q: int, p: int|
                0 <= q < t && 0 <= p < np ==> (#[trigger] rows@[q]@[p]).value() == effect(*net, p as usize, q as usize),
    {
        let mut row: Vec<BigNum> = Vec::new();
        for p in 0..np
            invariant
                row@.len() == p,
                forall|c: int| 0 <= c < p ==> #[trigger] row@[c].value() == effect(*net, c as usize, t),
        {
            row.push(effect_of(net, p, t));
        }
        rows.push(row);
    }
    let basis = compute_nullspace(&rows, np);
    proof {
        assert forall|k: int, t: int|
            0 <= k < basis@.len() && 0 <= t < nt implies #[trigger] place_sum(*net, basis@[k]@, t as usize, np as nat) == 0 by {
            let y = basis@[k]@;
            assert(in_kernel(rows@, y));
            assert(dot(rows@[t]@, y, y.len()) == 0);
            lemma_place_sum_is_dot(*net, rows@[t]@, y, t as usize, np as nat);
        }
        let fs = choose|fs: Seq<int>| own_columns(basis@, fs, np as nat) && #[trigger] determines(rows@, np as nat, fs);
        assert forall|z: Seq<int>|
            is_place_invariant(*net, z) && (forall|k: int| 0 <= k < fs.len() ==> z[#[trigger] fs[k]] == 0) implies forall|p: int|
            0 <= p < np ==> #[trigger] z[p] == 0 by {
            assert forall|t: int| 0 <= t < rows@.len() implies #[trigger] dot_int(rows@[t]@, z, np as nat) == 0 by {
                lemma_place_sum_int_is_dot(*net, rows@[t]@, z, t as usize, np as nat);
                assert(place_sum_int(*net, z, t as usize, np as nat) == 0);
            }
            assert(kernel_int(rows@, z, np as nat));
        }
        assert(places_determined(*net, fs));
    }
    basis
}

/// A row holding the effects on the places of transition `t` sums against
/// `y` as `place_sum` does.
proof fn lemma_place_sum_is_dot(net: PtNet, row: Seq<BigNum>, y: Seq<BigNum>, t: usize, n: nat)
    requires
        n <= row.len(),
        forall|p: int| 0 <= p < row.len() ==> #[trigger] row[p].value() == effect(net, p as usize, t),
    ensures
        dot(row, y, n) == place_sum(net, y, t, n),
    decreases n,
{
    if n > 0 {
        lemma_place_sum_is_dot(net, row, y, t, (n - 1) as nat);
        assert(entry_value(row, n - 1) == effect(net, (n - 1) as usize, t));
    }
}

/// A row holding the effects of the transitions on place `p` sums against
/// `x` as `transition_sum` does.
proof fn lemma_transition_sum_is_dot(net: PtNet, row: Seq<BigNum>, x: Seq<BigNum>, p: usize, n: nat)
    requires
        n <= row.len(),
        forall|t: int| 0 <= t < row.len() ==> #[trigger] row[t].value() == effect(net, p, t as usize),
    ensures
        dot(row, x, n) == transition_sum(net, x, p, n),
    decreases n,
{
    if n > 0 {
        lemma_transition_sum_is_dot(net, row, x, p, (n - 1) as nat);
        assert(entry_value(row, n - 1) == effect(net, p, (n - 1) as usize));
    }
}

/// The transition invariants of `net`: vectors `x` over the transitions
/// with `Σ_t C[p][t]·x[t] = 0` for every place `p`, each with coprime entries
/// and positive on a transition of its own where the others are zero.
pub fn transition_invariants(net: &PtNet) -> (r: Vec<Vec<BigNum>>)
    ensures
        forall|k: int|
            0 <= k < r@.len() ==> (#[trigger] r@[k])@.len() == net.transitions@.len() && gcd_of(
                r@[k]@,
                net.transitions@.len(),
            ) == 1 && forall|p: int| 0 <= p < net.places@.len() ==> #[trigger] transition_sum(*net, r@[k]@, p as usize, net.transitions@.len()) == 0,
        exists|fs: Seq<int>| #[trigger] own_columns(r@, fs, net.transitions@.len()),
        exists|fs: Seq<int>| own_columns(r@, fs, net.transitions@.len()) && #[trigger] transitions_determined(*net, fs),
{
    let np = net.places.len();
    let nt = net.transitions.len();
    let mut rows: Vec<Vec<BigNum>> = Vec::new();
    for p in 0..np
        invariant
            rows@.len() == p,
            nt == net.transitions@.len(),
            forall|q: int| 0 <= q < p ==> (#[trigger] rows@[q])@.len() == nt,
            forall|q: int, t: int|
                0 <= q < p && 0 <= t < nt ==> (#[trigger] rows@[q]@[t]).value() == effect(*net, q as usize, t as usize),
    {
        let mut row: Vec<BigNum> = Vec::new();
        for t in 0..nt
            invariant
                row@.len() == t,
                forall|c: int| 0 <= c < t ==> #[trigger] row@[c].value() == effect(*net, p, c as usize),
        {
            row.push(effect_of(net, p, t));
        }
        rows.push(row);
    }
    let basis = compute_nullspace(&rows, nt);
    proof {
        assert forall|k: int, p: int|
            0 <= k < basis@.len() && 0 <= p < np implies #[trigger] transition_sum(*net, basis@[k]@, p as usize, nt as nat) == 0 by {
            let x = basis@[k]@;
            assert(in_kernel(rows@, x));
            assert(dot(rows@[p]@, x, x.len()) == 0);
            lemma_transition_sum_is_dot(*net, rows@[p]@, x, p as usize, nt as nat);
        }
        let fs = choose|fs: Seq<int>| own_columns(basis@, fs, nt as nat) && #[trigger] determines(rows@, nt as nat, fs);
        assert forall|z: Seq<int>|
            is_transition_invariant(*net, z) && (forall|k: int| 0 <= k < fs.len() ==> z[#[trigger] fs[k]] == 0) implies forall|t: int|
            0 <= t < nt ==> #[trigger] z[t] == 0 by {
            assert forall|p: int| 0 <= p < rows@.len() implies #[trigger] dot_int(rows@[p]@, z, nt as nat) == 0 by {
                lemma_transition_sum_int_is_dot(*net, rows@[p]@, z, p as usize, nt as nat);
                assert(transition_sum_int(*net, z, p as usize, nt as nat) == 0);
            }
            assert(kernel_int(rows@, z, nt as nat));
        }
        assert(transitions_determined(*net, fs));
    }
    basis
}

} // verus!
