//! The magic-square validity predicate: does an ordered, row-major sequence
//! of `n * n` integers have every row, every column and both diagonals
//! summing to one common value?

use vstd::prelude::*;

verus! {

/// Sum of the first `j` entries of row `r` of the row-major grid `g` with
/// side length `n`: the entries `g[r * n + c]` for `c` in `0 .. j`.
pub open spec fn row_sum_upto(g: Seq<u32>, n: int, r: int, j: int) -> int
    decreases j,
{
    if j <= 0 {
        0
    } else {
        row_sum_upto(g, n, r, j - 1) + g[r * n + (j - 1)]
    }
}

/// Sum of row `r` of the grid.
pub open spec fn row_sum(g: Seq<u32>, n: int, r: int) -> int {
    row_sum_upto(g, n, r, n)
}

/// Sum of the first `j` entries of column `c`: the entries `g[r * n + c]`
/// for `r` in `0 .. j`.
pub open spec fn col_sum_upto(g: Seq<u32>, n: int, c: int, j: int) -> int
    decreases j,
{
    if j <= 0 {
        0
    } else {
        col_sum_upto(g, n, c, j - 1) + g[(j - 1) * n + c]
    }
}

/// Sum of column `c` of the grid.
pub open spec fn col_sum(g: Seq<u32>, n: int, c: int) -> int {
    col_sum_upto(g, n, c, n)
}

/// Sum of the first `j` entries of the main diagonal: `g[i * n + i]` for
/// `i` in `0 .. j`.
pub open spec fn diag_sum_upto(g: Seq<u32>, n: int, j: int) -> int
    decreases j,
{
    if j <= 0 {
        0
    } else {
        diag_sum_upto(g, n, j - 1) + g[(j - 1) * n + (j - 1)]
    }
}

/// Sum of the main diagonal of the grid.
pub open spec fn diag_sum(g: Seq<u32>, n: int) -> int {
    diag_sum_upto(g, n, n)
}

/// Sum of the first `j` entries of the anti-diagonal, using the explicit
/// per-row index `i * n + (n - 1 - i)`; a fixed stride through the flat
/// sequence is not the anti-diagonal in general.
pub open spec fn anti_diag_sum_upto(g: Seq<u32>, n: int, j: int) -> int
    decreases j,
{
    if j <= 0 {
        0
    } else {
        anti_diag_sum_upto(g, n, j - 1) + g[(j - 1) * n + (n - 1 - (j - 1))]
    }
}

/// Sum of the anti-diagonal of the grid.
pub open spec fn anti_diag_sum(g: Seq<u32>, n: int) -> int {
    anti_diag_sum_upto(g, n, n)
}

/// A row-major sequence of `n * n` integers is a magic grid when both
/// diagonals, every row and every column have one common sum.
/// (Distinctness of the entries is a separate, domain-level condition.)
pub open spec fn is_magic(g: Seq<u32>, n: int) -> bool {
    &&& n >= 1
    &&& g.len() == n * n
    &&& anti_diag_sum(g, n) == diag_sum(g, n)
    &&& forall|r: int| 0 <= r < n ==> row_sum(g, n, r) == diag_sum(g, n)
    &&& forall|c: int| 0 <= c < n ==> col_sum(g, n, c) == diag_sum(g, n)
}

/// A row-and-column index pair addresses a cell inside the flat grid.
proof fn lemma_cell_index_bound(n: int, r: int, c: int)
    by (nonlinear_arith)
    requires
        0 <= r < n,
        0 <= c < n,
    ensures
        0 <= r * n + c < n * n,
{
}

/// The validity checker: decides whether the row-major sequence `input`
/// of length `size * size` is a magic grid, exactly as `is_magic` states.
/// Rejects as soon as one mismatching sum is found.
#[verifier::loop_isolation(false)]
pub fn check_square(input: &Vec<u32>, size: usize) -> (r: bool)
    requires
        size >= 1,
        input@.len() == size * size,
    ensures
        r == is_magic(input@, size as int),
{
    let n = size;
    let g = input;
    let total: usize = g.len();
    proof {
        assert(n * n <= usize::MAX);
    }

    let mut d1: u128 = 0;
    let mut i: usize = 0;
    while i < n
        invariant
            0 <= i <= n,
            n >= 1,
            g@.len() == n * n,
            n * n <= usize::MAX,
            d1 as int == diag_sum_upto(g@, n as int, i as int),
            d1 as int <= i as int * 0xffff_ffff,
        decreases n - i,
    {
        proof {
            lemma_cell_index_bound(n as int, i as int, i as int);
        }
        d1 = d1 + g[i * n + i] as u128;
        i = i + 1;
    }

    let mut d2: u128 = 0;
    let mut j: usize = 0;
    while j < n
        invariant
            0 <= j <= n,
            n >= 1,
            g@.len() == n * n,
            n * n <= usize::MAX,
            d2 as int == anti_diag_sum_upto(g@, n as int, j as int),
            d2 as int <= j as int * 0xffff_ffff,
        decreases n - j,
    {
        proof {
            lemma_cell_index_bound(n as int, j as int, n as int - j as int - 1);
        }
        d2 = d2 + g[j * n + (n - 1 - j)] as u128;
        j = j + 1;
    }

    if d1 != d2 {
        return false;
    }

    let mut r: usize = 0;
    while r < n
        invariant
            0 <= r <= n,
            n >= 1,
            g@.len() == n * n,
            n * n <= usize::MAX,
            d1 as int == diag_sum(g@, n as int),
            d1 as int == anti_diag_sum(g@, n as int),
            forall|k: int| 0 <= k < r ==> row_sum(g@, n as int, k) == d1 as int,
            forall|k: int| 0 <= k < r ==> col_sum(g@, n as int, k) == d1 as int,
        decreases n - r,
    {
        let mut horz: u128 = 0;
        let mut c: usize = 0;
        while c < n
            invariant
                0 <= c <= n,
                0 <= r < n,
                n >= 1,
                g@.len() == n * n,
                n * n <= usize::MAX,
                horz as int == row_sum_upto(g@, n as int, r as int, c as int),
                horz as int <= c as int * 0xffff_ffff,
            decreases n - c,
        {
            proof {
                lemma_cell_index_bound(n as int, r as int, c as int);
            }
            horz = horz + g[r * n + c] as u128;
            c = c + 1;
        }

        let mut vert: u128 = 0;
        let mut k: usize = 0;
        while k < n
            invariant
                0 <= k <= n,
                0 <= r < n,
                n >= 1,
                g@.len() == n * n,
                n * n <= usize::MAX,
                vert as int == col_sum_upto(g@, n as int, r as int, k as int),
                vert as int <= k as int * 0xffff_ffff,
            decreases n - k,
        {
            proof {
                lemma_cell_index_bound(n as int, k as int, r as int);
            }
            vert = vert + g[k * n + r] as u128;
            k = k + 1;
        }

        if horz != vert || horz != d1 {
            proof {
                assert(horz as int == row_sum(g@, n as int, r as int));
                assert(vert as int == col_sum(g@, n as int, r as int));
            }
            return false;
        }
        r = r + 1;
    }

    true
}

} // verus!
