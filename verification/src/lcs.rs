//! The longest-common-subsequence engine: the mathematical length function,
//! token hashing, and the table fill that materialises every prefix-pair
//! length in a [`Grid`].
//!
//! Token identity is the digest that `rustc_hash::FxHasher` assigns to a
//! line: two lines count as equal exactly when their digests are equal. The
//! digest comparison costs O(1) per table cell regardless of line length;
//! the price is that a hash collision makes two distinct lines count as
//! equal. That trade-off is deliberate and is part of every contract here,
//! which speak of the digest sequences, never of raw line equality.

use crate::grid::Grid;
use itertools::Itertools;
use rustc_hash::FxHasher;
use std::hash::{Hash, Hasher};
use vstd::arithmetic::div_mod::{
    lemma_div_pos_is_pos, lemma_fundamental_div_mod, lemma_fundamental_div_mod_converse,
    lemma_mod_division_less_than_divisor,
};
use vstd::arithmetic::mul::lemma_mul_inequality;
use vstd::prelude::*;

verus! {

/// The length of the longest common subsequence of `a` and `b`: the classic
/// recurrence on the two last elements.
pub open spec fn lcs_len<T>(a: Seq<T>, b: Seq<T>) -> nat
    decreases a.len() + b.len(),
{
    if a.len() == 0 || b.len() == 0 {
        0
    } else if a.last() == b.last() {
        lcs_len(a.drop_last(), b.drop_last()) + 1
    } else {
        let on_a = lcs_len(a.drop_last(), b);
        let on_b = lcs_len(a, b.drop_last());
        if on_b >= on_a {
            on_b
        } else {
            on_a
        }
    }
}

/// A common subsequence is never longer than either sequence.
pub proof fn lemma_lcs_len_bound<T>(a: Seq<T>, b: Seq<T>)
    ensures
        lcs_len(a, b) <= a.len(),
        lcs_len(a, b) <= b.len(),
    decreases a.len() + b.len(),
{
    if a.len() == 0 || b.len() == 0 {
    } else if a.last() == b.last() {
        lemma_lcs_len_bound(a.drop_last(), b.drop_last());
    } else {
        lemma_lcs_len_bound(a.drop_last(), b);
        lemma_lcs_len_bound(a, b.drop_last());
    }
}

/// The length of the longest common subsequence does not depend on the order
/// of its two arguments.
pub proof fn lemma_lcs_len_symmetric<T>(a: Seq<T>, b: Seq<T>)
    ensures
        lcs_len(a, b) == lcs_len(b, a),
    decreases a.len() + b.len(),
{
    if a.len() == 0 || b.len() == 0 {
    } else if a.last() == b.last() {
        lemma_lcs_len_symmetric(a.drop_last(), b.drop_last());
    } else {
        lemma_lcs_len_symmetric(a.drop_last(), b);
        lemma_lcs_len_symmetric(a, b.drop_last());
    }
}

/// The recurrence restated over prefixes, in the exact shape that the table
/// fill and the backtrace read it: cell `(i, j)` comes from the three
/// neighbouring prefix pairs.
pub proof fn lemma_lcs_len_step<T>(a: Seq<T>, b: Seq<T>, i: int, j: int)
    requires
        1 <= i <= a.len(),
        1 <= j <= b.len(),
    ensures
        lcs_len(a.take(i), b.take(j)) == if a[i - 1] == b[j - 1] {
            lcs_len(a.take(i - 1), b.take(j - 1)) + 1
        } else if lcs_len(a.take(i), b.take(j - 1)) >= lcs_len(a.take(i - 1), b.take(j)) {
            lcs_len(a.take(i), b.take(j - 1))
        } else {
            lcs_len(a.take(i - 1), b.take(j))
        },
{
    assert(a.take(i).drop_last() =~= a.take(i - 1));
    assert(b.take(j).drop_last() =~= b.take(j - 1));
    assert(a.take(i).last() == a[i - 1]);
    assert(b.take(j).last() == b[j - 1]);
}

/// The digest that `FxHasher` assigns to one line of text.
pub uninterp spec fn fx_hash_of(line: Seq<char>) -> u64;

/// The digests of every line of a sequence, in order.
pub open spec fn token_hashes(lines: Seq<Seq<char>>) -> Seq<u64> {
    Seq::new(lines.len(), |i: int| fx_hash_of(lines[i]))
}

/// Relies on `rustc_hash::FxHasher` through `str`'s `Hash` impl: the hasher
/// starts from a fixed seed, so the digest is a function of the line's
/// characters alone.
#[verifier::external_body]
fn hash_line(line: &str) -> (h: u64)
    ensures
        h == fx_hash_of(line@),
{
    let mut hasher = FxHasher::default();
    line.hash(&mut hasher);
    hasher.finish()
}

/// Hashes every token of a sequence, in order.
pub(crate) fn hash_tokens(tokens: &[&str]) -> (hs: Vec<u64>)
    ensures
        hs@ == token_hashes(tokens.deep_view()),
{
    let mut hs: Vec<u64> = Vec::new();
    let n = tokens.len();
    let mut k: usize = 0;
    while k < n
        invariant
            k <= n,
            n == tokens@.len(),
            hs@.len() == k,
            forall|t: int| 0 <= t < k ==> hs@[t] == fx_hash_of(tokens.deep_view()[t]),
        decreases n - k,
    {
        let line: &str = tokens[k];
        hs.push(hash_line(line));
        k = k + 1;
    }
    proof {
        assert(hs@ =~= token_hashes(tokens.deep_view()));
    }
    hs
}

/// Relies on itertools' `cartesian_product` of two integer ranges: it yields
/// every pair once, row-major — first every `(0, _)` in order, then every
/// `(1, _)`, and so on — so the pair at position `k` is `(k / n, k % n)`.
#[verifier::external_body]
fn row_major_pairs(m: usize, n: usize) -> (ps: Vec<(usize, usize)>)
    requires
        m * n <= usize::MAX,
    ensures
        ps@.len() == m * n,
        forall|k: int|
            0 <= k < ps@.len() ==> ps@[k].0 == k / (n as int) && ps@[k].1 == k % (n as int),
{
    (0..m).cartesian_product(0..n).collect()
}

/// Position `k` of the row-major walk of an `m` by `n` rectangle lands on
/// the cell `(k / n, k % n)`.
proof fn lemma_row_major_split(m: int, n: int, k: int)
    requires
        0 <= m,
        0 <= n,
        0 <= k,
        k < m * n,
    ensures
        0 < m,
        0 < n,
        0 <= k / n < m,
        0 <= k % n < n,
        (k / n) * n + (k % n) == k,
{
    assert(0 < m && 0 < n) by (nonlinear_arith)
        requires
            0 <= m,
            0 <= n,
            0 <= k,
            k < m * n,
    ;
    lemma_mod_division_less_than_divisor(k, n);
    lemma_fundamental_div_mod(k, n);
    lemma_div_pos_is_pos(k, n);
    if k / n >= m {
        lemma_mul_inequality(m, k / n, n);
        assert(false);
    }
}

/// When both sides of an `(m + 1) x (n + 1)` table fit in memory, the
/// shorter input is well below `u32::MAX`, so every table entry and its
/// successor fit in a `u32`.
proof fn lemma_short_side_fits_u32(m: int, n: int)
    requires
        0 <= m,
        0 <= n,
        (m + 1) * (n + 1) <= usize::MAX,
    ensures
        m < 0xffff_ffff || n < 0xffff_ffff,
{
    if m >= 0xffff_ffff && n >= 0xffff_ffff {
        assert((m + 1) * (n + 1) >= 0x1_0000_0000_0000_0000) by (nonlinear_arith)
            requires
                m >= 0xffff_ffff,
                n >= 0xffff_ffff,
        ;
    }
}

/// Fills the whole table for the digest sequences `xs` and `ys`: cell
/// `(i, j)` holds the length of the longest common subsequence of the first
/// `i` digests of `xs` and the first `j` digests of `ys`.
pub(crate) fn lcs_grid(xs: &Vec<u64>, ys: &Vec<u64>) -> (g: Grid)
    requires
        (xs@.len() + 1) * (ys@.len() + 1) <= usize::MAX,
    ensures
        g.wf(),
        g.spec_rows() == xs@.len() + 1,
        g.spec_cols() == ys@.len() + 1,
        forall|i: int, j: int|
            0 <= i <= xs@.len() && 0 <= j <= ys@.len() ==> g.cell(i, j) as nat == lcs_len(
                xs@.take(i),
                ys@.take(j),
            ),
{
    let m = xs.len();
    let n = ys.len();
    proof {
        assert(m * n <= (m + 1) * (n + 1)) by (nonlinear_arith)
            requires
                0 <= m,
                0 <= n,
        ;
    }
    let mut grid = Grid::new(m, n);
    let pairs = row_major_pairs(m, n);
    let total = pairs.len();
    let mut k: usize = 0;
    while k < total
        invariant
            m == xs@.len(),
            n == ys@.len(),
            (m + 1) * (n + 1) <= usize::MAX,
            total == m * n,
            pairs@.len() == total,
            forall|t: int|
                0 <= t < total ==> pairs@[t].0 == t / (n as int) && pairs@[t].1 == t % (n as int),
            k <= total,
            grid.wf(),
            grid.spec_rows() == m + 1,
            grid.spec_cols() == n + 1,
            forall|i: int, j: int|
                0 <= i <= m && 0 <= j <= n ==> grid.cell(i, j) as int == (if 1 <= i && 1 <= j && (i
                    - 1) * (n as int) + (j - 1) < k {
                    lcs_len(xs@.take(i), ys@.take(j)) as int
                } else {
                    0
                }),
        decreases total - k,
    {
        let p = pairs[k];
        let i = p.0;
        let j = p.1;
        proof {
            lemma_row_major_split(m as int, n as int, k as int);
            assert(i < m && j < n && (i as int) * (n as int) + j == k);
            assert((i as int - 1) * (n as int) == (i as int) * (n as int) - (n as int))
                by (nonlinear_arith)
            ;
            // The three neighbours already hold their prefix-pair lengths:
            // row 0 and column 0 are still zero, which is also the length of
            // a longest common subsequence with an empty prefix.
            assert(lcs_len(xs@.take(0), ys@.take(j as int)) == 0);
            assert(lcs_len(xs@.take(0), ys@.take(j + 1)) == 0);
            assert(lcs_len(xs@.take(i as int), ys@.take(0)) == 0);
            assert(lcs_len(xs@.take(i + 1), ys@.take(0)) == 0);
        }
        let up_left = grid.get(i, j);
        let left = grid.get(i + 1, j);
        let up = grid.get(i, j + 1);
        proof {
            assert(up_left as nat == lcs_len(xs@.take(i as int), ys@.take(j as int)));
            assert(left as nat == lcs_len(xs@.take(i + 1), ys@.take(j as int)));
            assert(up as nat == lcs_len(xs@.take(i as int), ys@.take(j + 1)));
        }
        let value: u32;
        if xs[i] == ys[j] {
            proof {
                lemma_lcs_len_bound(xs@.take(i as int), ys@.take(j as int));
                lemma_short_side_fits_u32(m as int, n as int);
            }
            value = up_left + 1;
        } else {
            value = if left >= up {
                left
            } else {
                up
            };
        }
        proof {
            lemma_lcs_len_step(xs@, ys@, i + 1, j + 1);
            assert(value as nat == lcs_len(xs@.take(i + 1), ys@.take(j + 1)));
        }
        let ghost before = grid;
        grid.set(i + 1, j + 1, value);
        proof {
            assert forall|i2: int, j2: int| 0 <= i2 <= m && 0 <= j2 <= n implies grid.cell(
                i2,
                j2,
            ) as int == (if 1 <= i2 && 1 <= j2 && (i2 - 1) * (n as int) + (j2 - 1) < k + 1 {
                lcs_len(xs@.take(i2), ys@.take(j2)) as int
            } else {
                0
            }) by {
                if i2 == i + 1 && j2 == j + 1 {
                } else {
                    assert(grid.cell(i2, j2) == before.cell(i2, j2));
                    if 1 <= i2 && 1 <= j2 && (i2 - 1) * (n as int) + (j2 - 1) == k {
                        lemma_fundamental_div_mod_converse(
                            k as int,
                            n as int,
                            i2 - 1,
                            j2 - 1,
                        );
                        assert(false);
                    }
                }
            }
        }
        k = k + 1;
    }
    proof {
        assert forall|i: int, j: int| 0 <= i <= m && 0 <= j <= n implies grid.cell(i, j) as nat
            == lcs_len(xs@.take(i), ys@.take(j)) by {
            if 1 <= i && 1 <= j {
                lemma_mul_inequality(i - 1, m - 1, n as int);
                assert((m - 1) * (n as int) + (n as int) == m * n) by (nonlinear_arith);
                assert((i - 1) * (n as int) + (j - 1) < k);
            } else {
                assert(lcs_len(xs@.take(i), ys@.take(j)) == 0);
            }
        }
    }
    grid
}

/// The full table for two tokenised texts, per the digest-as-identity policy
/// described above: cell `(i, j)` is the length of the longest common
/// subsequence of the first `i` digests of `x` and the first `j` of `y`.
pub fn lcs(x: &[&str], y: &[&str]) -> (g: Grid)
    requires
        (x@.len() + 1) * (y@.len() + 1) <= usize::MAX,
    ensures
        g.wf(),
        g.spec_rows() == x@.len() + 1,
        g.spec_cols() == y@.len() + 1,
        forall|i: int, j: int|
            0 <= i <= x@.len() && 0 <= j <= y@.len() ==> g.cell(i, j) as nat == lcs_len(
                token_hashes(x.deep_view()).take(i),
                token_hashes(y.deep_view()).take(j),
            ),
{
    let hx = hash_tokens(x);
    let hy = hash_tokens(y);
    lcs_grid(&hx, &hy)
}

} // verus!
