//! Row-major indexing and Von Neumann neighborhoods on a toroidal grid.
//!
//! Cells of a `w x h` grid are numbered row-major: the cell at `(row, col)`
//! has flat index `row * w + col`. Every cell has exactly four orthogonal
//! neighbors; indices wrap at the edges, so the grid is topologically a
//! torus and no cell sits on a true boundary.

use vstd::arithmetic::div_mod::{
    lemma_fundamental_div_mod, lemma_fundamental_div_mod_converse,
    lemma_mod_division_less_than_divisor,
};
use vstd::prelude::*;

verus! {

/// Flat row-major index of the cell at `(row, col)` on a grid of width `w`.
pub open spec fn flat_index(w: int, row: int, col: int) -> int {
    row * w + col
}

/// Neighbor of cell `i` on a `w x h` torus, in direction `s`:
/// 0 is left, 1 is right, 2 is up, 3 is down. Wraps to the opposite
/// edge of the row or column when `i` sits at an edge.
pub open spec fn neighbor(w: int, h: int, i: int, s: int) -> int {
    if s == 0 {
        if i % w != 0 {
            i - 1
        } else {
            i + (w - 1)
        }
    } else if s == 1 {
        if i % w != w - 1 {
            i + 1
        } else {
            i - (w - 1)
        }
    } else if s == 2 {
        if i / w != 0 {
            i - w
        } else {
            i + (h - 1) * w
        }
    } else {
        if i / w != h - 1 {
            i + w
        } else {
            i - (h - 1) * w
        }
    }
}

/// `j` is one of the four Von Neumann neighbors of `i`.
pub open spec fn is_neighbor(w: int, h: int, i: int, j: int) -> bool {
    exists|s: int| 0 <= s < 4 && neighbor(w, h, i, s) == j
}

/// The row and column of a cell index are in range on a `w x h` grid.
pub proof fn lemma_coords(w: int, h: int, i: int)
    requires
        1 <= w,
        1 <= h,
        0 <= i < w * h,
    ensures
        0 <= i % w < w,
        0 <= i / w < h,
        i == (i / w) * w + (i % w),
{
    lemma_fundamental_div_mod(i, w);
    lemma_mod_division_less_than_divisor(i, w);
    let q: int = i / w;
    let r: int = i % w;
    assert(w * q == q * w) by (nonlinear_arith);
    assert(0 <= q < h) by (nonlinear_arith)
        requires
            1 <= w,
            i == w * q + r,
            0 <= r < w,
            0 <= i < w * h,
    ;
}

/// A cell in range has row-major index in range: the flat index of
/// `(row, col)` with `row < h` and `col < w` is below `w * h`.
pub proof fn lemma_flat_index_in_grid(w: int, h: int, row: int, col: int)
    requires
        1 <= w,
        0 <= row < h,
        0 <= col < w,
    ensures
        0 <= flat_index(w, row, col) < w * h,
{
    assert(0 <= row * w + col < w * h) by (nonlinear_arith)
        requires
            1 <= w,
            0 <= row < h,
            0 <= col < w,
    ;
}

/// Row-major indexing is injective over the grid's domain: two in-range
/// coordinate pairs with the same flat index are the same pair.
pub proof fn lemma_flat_index_injective(
    w: int,
    h: int,
    row1: int,
    col1: int,
    row2: int,
    col2: int,
)
    requires
        1 <= w,
        0 <= row1 < h,
        0 <= col1 < w,
        0 <= row2 < h,
        0 <= col2 < w,
        flat_index(w, row1, col1) == flat_index(w, row2, col2),
    ensures
        row1 == row2,
        col1 == col2,
{
    lemma_fundamental_div_mod_converse(flat_index(w, row1, col1), w, row1, col1);
    lemma_fundamental_div_mod_converse(flat_index(w, row2, col2), w, row2, col2);
}

/// Every neighbor of an in-range cell is itself in range: the torus has
/// no boundary, so neighbor arithmetic never leaves the grid.
pub proof fn lemma_neighbor_in_grid(w: int, h: int, i: int, s: int)
    requires
        1 <= w,
        1 <= h,
        0 <= i < w * h,
        0 <= s < 4,
    ensures
        0 <= neighbor(w, h, i, s) < w * h,
{
    lemma_coords(w, h, i);
    let q: int = i / w;
    let r: int = i % w;
    assert(0 <= neighbor(w, h, i, s) < w * h) by (nonlinear_arith)
        requires
            1 <= w,
            1 <= h,
            0 <= i < w * h,
            0 <= s < 4,
            i == q * w + r,
            0 <= r < w,
            0 <= q < h,
            q == i / w,
            r == i % w,
            neighbor(w, h, i, s) == if s == 0 {
                if r != 0 { i - 1 } else { i + (w - 1) }
            } else if s == 1 {
                if r != w - 1 { i + 1 } else { i - (w - 1) }
            } else if s == 2 {
                if q != 0 { i - w } else { i + (h - 1) * w }
            } else {
                if q != h - 1 { i + w } else { i - (h - 1) * w }
            },
    ;
}

/// Torus symmetry of the neighborhood: going left then right, right then
/// left, up then down, or down then up returns to the starting cell; hence
/// every cell appears among the four neighbors of each of its own four
/// neighbors.
pub proof fn lemma_neighbor_symmetry(w: int, h: int, i: int)
    requires
        1 <= w,
        1 <= h,
        0 <= i < w * h,
    ensures
        neighbor(w, h, neighbor(w, h, i, 0), 1) == i,
        neighbor(w, h, neighbor(w, h, i, 1), 0) == i,
        neighbor(w, h, neighbor(w, h, i, 2), 3) == i,
        neighbor(w, h, neighbor(w, h, i, 3), 2) == i,
        forall|s: int| 0 <= s < 4 ==> is_neighbor(w, h, neighbor(w, h, i, s), i),
{
    lemma_coords(w, h, i);
    let q: int = i / w;
    let r: int = i % w;
    // Left, then right.
    let l: int = neighbor(w, h, i, 0);
    if r != 0 {
        assert(l == q * w + (r - 1)) by (nonlinear_arith)
            requires
                i == q * w + r,
                l == i - 1,
        ;
        lemma_fundamental_div_mod_converse(l, w, q, r - 1);
    } else {
        assert(l == q * w + (w - 1)) by (nonlinear_arith)
            requires
                i == q * w + r,
                r == 0,
                l == i + (w - 1),
        ;
        lemma_fundamental_div_mod_converse(l, w, q, w - 1);
    }
    assert(neighbor(w, h, l, 1) == i);
    // Right, then left.
    let rn: int = neighbor(w, h, i, 1);
    if r != w - 1 {
        assert(rn == q * w + (r + 1)) by (nonlinear_arith)
            requires
                i == q * w + r,
                rn == i + 1,
        ;
        lemma_fundamental_div_mod_converse(rn, w, q, r + 1);
    } else {
        assert(rn == q * w + 0) by (nonlinear_arith)
            requires
                i == q * w + r,
                r == w - 1,
                rn == i - (w - 1),
        ;
        lemma_fundamental_div_mod_converse(rn, w, q, 0);
    }
    assert(neighbor(w, h, rn, 0) == i);
    // Up, then down.
    let u: int = neighbor(w, h, i, 2);
    if q != 0 {
        assert(u == (q - 1) * w + r) by (nonlinear_arith)
            requires
                i == q * w + r,
                u == i - w,
        ;
        lemma_fundamental_div_mod_converse(u, w, q - 1, r);
    } else {
        assert(u == (h - 1) * w + r) by (nonlinear_arith)
            requires
                i == q * w + r,
                q == 0,
                u == i + (h - 1) * w,
        ;
        lemma_fundamental_div_mod_converse(u, w, h - 1, r);
    }
    assert(neighbor(w, h, u, 3) == i);
    // Down, then up.
    let d: int = neighbor(w, h, i, 3);
    if q != h - 1 {
        assert(d == (q + 1) * w + r) by (nonlinear_arith)
            requires
                i == q * w + r,
                d == i + w,
        ;
        lemma_fundamental_div_mod_converse(d, w, q + 1, r);
    } else {
        assert(d == 0 * w + r) by (nonlinear_arith)
            requires
                i == q * w + r,
                q == h - 1,
                d == i - (h - 1) * w,
        ;
        lemma_fundamental_div_mod_converse(d, w, 0, r);
    }
    assert(neighbor(w, h, d, 2) == i);
    assert forall|s: int| 0 <= s < 4 implies is_neighbor(w, h, neighbor(w, h, i, s), i) by {
        if s == 0 {
            assert(neighbor(w, h, neighbor(w, h, i, 0), 1) == i);
        } else if s == 1 {
            assert(neighbor(w, h, neighbor(w, h, i, 1), 0) == i);
        } else if s == 2 {
            assert(neighbor(w, h, neighbor(w, h, i, 2), 3) == i);
        } else {
            assert(neighbor(w, h, neighbor(w, h, i, 3), 2) == i);
        }
    }
}

} // verus!
