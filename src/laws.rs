//! General properties of solving, proved from the contracts.
use vstd::prelude::*;
use vstd::relations::injective_on;
use vstd::set_lib::{lemma_int_range, lemma_map_size, lemma_subset_equality, set_int_range};

use crate::grid::{
    agree_below, cell_at, flatten, givens_consistent, is_fill, is_peer, lemma_cell_coords,
    lemma_clash_no_fill, lemma_coords_cell,
    lemma_flatten_injective, lex_lt,
};
use crate::puzzle::{check_rows, puzzle_cells, row_cells, Puzzle, Solution, TryIntoPuzzleError};
use crate::solver::solve_outcome;
use crate::text::{compact_text, lemma_compact_rows, row_values, text_rows};

verus! {

/// The `i`-th cell of row `u`.
pub open spec fn row_unit(u: int) -> spec_fn(int) -> int {
    |i: int| cell_at(u, i)
}

/// The `i`-th cell of column `u`.
pub open spec fn col_unit(u: int) -> spec_fn(int) -> int {
    |i: int| cell_at(i, u)
}

/// The `i`-th cell, row by row, of box `u` (boxes numbered row by row).
pub open spec fn box_unit(u: int) -> spec_fn(int) -> int {
    |i: int| cell_at(3 * (u / 3) + i / 3, 3 * (u % 3) + i % 3)
}

/// Of the nine cells `cells(0)` .. `cells(8)`, none but `cells(i)` holds `v`.
pub open spec fn only_at(s: Seq<u8>, cells: spec_fn(int) -> int, v: int, i: int) -> bool {
    forall|j: int| 0 <= j < 9 && #[trigger] s[cells(j)] == v ==> j == i
}

/// Exactly one of the nine cells `cells(0)` .. `cells(8)` holds `v` in `s`.
pub open spec fn holds_once(s: Seq<u8>, cells: spec_fn(int) -> int, v: int) -> bool {
    exists|i: int| 0 <= i < 9 && #[trigger] s[cells(i)] == v && only_at(s, cells, v, i)
}

/// `s` is a solved Sudoku grid: every cell holds a digit from 1 to 9, and
/// every row, column and box holds each digit exactly once.
pub open spec fn is_solved_grid(s: Seq<u8>) -> bool {
    &&& s.len() == 81
    &&& forall|k: int| 0 <= k < 81 ==> 1 <= #[trigger] s[k] <= 9
    &&& forall|u: int, v: int| 0 <= u < 9 && 1 <= v <= 9 ==> #[trigger] holds_once(s, row_unit(u), v)
    &&& forall|u: int, v: int| 0 <= u < 9 && 1 <= v <= 9 ==> #[trigger] holds_once(s, col_unit(u), v)
    &&& forall|u: int, v: int| 0 <= u < 9 && 1 <= v <= 9 ==> #[trigger] holds_once(s, box_unit(u), v)
}

/// Nine pairwise different values from 1 to 9 take every value from 1 to 9.
proof fn lemma_pigeonhole(f: spec_fn(int) -> int, v: int)
    requires
        forall|i: int| 0 <= i < 9 ==> 1 <= #[trigger] f(i) <= 9,
        forall|i: int, j: int| 0 <= i < 9 && 0 <= j < 9 && i != j ==> #[trigger] f(i) != #[trigger] f(j),
        1 <= v <= 9,
    ensures
        exists|i: int| 0 <= i < 9 && #[trigger] f(i) == v,
{
    let x = set_int_range(0, 9);
    let z = set_int_range(1, 10);
    lemma_int_range(0, 9);
    lemma_int_range(1, 10);
    let y = x.map(f);
    assert(injective_on(f, x));
    lemma_map_size(x, y, f);
    assert(y.subset_of(z)) by {
        assert forall|b: int| y.contains(b) implies z.contains(b) by {
            let a = choose|a: int| x.contains(a) && f(a) == b;
        }
    }
    lemma_subset_equality(y, z);
    assert(z.contains(v));
    assert(y.contains(v));
}

/// The cells of one unit: in the grid, and any two of them are peers.
pub open spec fn is_unit(cells: spec_fn(int) -> int) -> bool {
    &&& forall|i: int| 0 <= i < 9 ==> 0 <= #[trigger] cells(i) < 81
    &&& forall|i: int, j: int|
        0 <= i < 9 && 0 <= j < 9 && i != j ==> is_peer(#[trigger] cells(i), #[trigger] cells(j))
}

#[verifier::rlimit(40)]
proof fn lemma_units(u: int)
    requires
        0 <= u < 9,
    ensures
        is_unit(row_unit(u)),
        is_unit(col_unit(u)),
        is_unit(box_unit(u)),
{
    assert forall|i: int| 0 <= i < 9 implies 0 <= #[trigger] row_unit(u)(i) < 81 && 0 <= col_unit(u)(i) < 81
        && 0 <= box_unit(u)(i) < 81 by {
        lemma_coords_cell(u, i);
        lemma_coords_cell(i, u);
        lemma_coords_cell(3 * (u / 3) + i / 3, 3 * (u % 3) + i % 3);
    }
    assert forall|i: int, j: int| 0 <= i < 9 && 0 <= j < 9 && i != j implies is_peer(
        #[trigger] row_unit(u)(i),
        #[trigger] row_unit(u)(j),
    ) by {
        lemma_coords_cell(u, i);
        lemma_coords_cell(u, j);
    }
    assert forall|i: int, j: int| 0 <= i < 9 && 0 <= j < 9 && i != j implies is_peer(
        #[trigger] col_unit(u)(i),
        #[trigger] col_unit(u)(j),
    ) by {
        lemma_coords_cell(i, u);
        lemma_coords_cell(j, u);
    }
    assert forall|i: int, j: int| 0 <= i < 9 && 0 <= j < 9 && i != j implies is_peer(
        #[trigger] box_unit(u)(i),
        #[trigger] box_unit(u)(j),
    ) by {
        lemma_coords_cell(3 * (u / 3) + i / 3, 3 * (u % 3) + i % 3);
        lemma_coords_cell(3 * (u / 3) + j / 3, 3 * (u % 3) + j % 3);
    }
}

/// In a grid of digits whose peers all differ, each unit holds each digit once.
proof fn lemma_unit_holds_once(s: Seq<u8>, cells: spec_fn(int) -> int, v: int)
    requires
        s.len() == 81,
        forall|k: int| 0 <= k < 81 ==> 1 <= #[trigger] s[k] <= 9,
        forall|k: int, j: int| 0 <= k < 81 && 0 <= j < 81 && #[trigger] is_peer(k, j) ==> s[k] != s[j],
        is_unit(cells),
        1 <= v <= 9,
    ensures
        holds_once(s, cells, v),
{
    let f = |i: int| s[cells(i)] as int;
    assert forall|i: int| 0 <= i < 9 implies 1 <= #[trigger] f(i) <= 9 by {
        assert(0 <= cells(i) < 81);
    }
    assert forall|i: int, j: int| 0 <= i < 9 && 0 <= j < 9 && i != j implies #[trigger] f(i) != #[trigger] f(j) by {
        assert(is_peer(cells(i), cells(j)));
    }
    lemma_pigeonhole(f, v);
    let i = choose|i: int| 0 <= i < 9 && #[trigger] f(i) == v;
    assert forall|j: int| 0 <= j < 9 && #[trigger] s[cells(j)] == v implies j == i by {
        if j != i {
            assert(is_peer(cells(i), cells(j)));
        }
    }
}

/// A fill of a puzzle is a solved grid that keeps the givens.
pub proof fn fill_is_solved_grid(p: Seq<u8>, s: Seq<u8>)
    requires
        is_fill(p, s),
    ensures
        is_solved_grid(s),
        forall|k: int| 0 <= k < 81 && p[k] != 0 ==> #[trigger] s[k] == p[k],
{
    assert forall|u: int, v: int| 0 <= u < 9 && 1 <= v <= 9 implies #[trigger] holds_once(s, row_unit(u), v) by {
        lemma_units(u);
        lemma_unit_holds_once(s, row_unit(u), v);
    }
    assert forall|u: int, v: int| 0 <= u < 9 && 1 <= v <= 9 implies #[trigger] holds_once(s, col_unit(u), v) by {
        lemma_units(u);
        lemma_unit_holds_once(s, col_unit(u), v);
    }
    assert forall|u: int, v: int| 0 <= u < 9 && 1 <= v <= 9 implies #[trigger] holds_once(s, box_unit(u), v) by {
        lemma_units(u);
        lemma_unit_holds_once(s, box_unit(u), v);
    }
}

/// Every solution that solving returns is a solved grid that keeps the
/// givens.
pub proof fn solution_is_valid(p: Seq<u8>, r: Option<Solution>)
    requires
        solve_outcome(p, r),
        r is Some,
    ensures
        is_solved_grid(r->0@),
        forall|k: int| 0 <= k < 81 && p[k] != 0 ==> #[trigger] r->0@[k] == p[k],
{
    fill_is_solved_grid(p, r->0@);
}

/// A puzzle with no solved grid that keeps its givens gets no solution; in
/// particular a puzzle with two equal givens in one row, column or box.
pub proof fn unsolvable_gives_none(p: Seq<u8>, r: Option<Solution>)
    requires
        solve_outcome(p, r),
        forall|s: Seq<u8>|
            !(#[trigger] is_solved_grid(s) && forall|k: int|
                0 <= k < 81 && p[k] != 0 ==> #[trigger] s[k] == p[k]),
    ensures
        r is None,
{
    if let Some(sol) = r {
        fill_is_solved_grid(p, sol@);
    }
}

/// Givens that clash with a peer give no solution.
pub proof fn clashing_givens_give_none(p: Seq<u8>, r: Option<Solution>)
    requires
        solve_outcome(p, r),
        !givens_consistent(p),
    ensures
        r is None,
{
    if let Some(sol) = r {
        lemma_clash_no_fill(p, sol@);
    }
}

/// Two sequences of 81 cells that differ are ordered one way or the other.
proof fn lemma_lex_total(a: Seq<u8>, b: Seq<u8>, n: int)
    requires
        0 <= n <= 81,
        a.len() == 81,
        b.len() == 81,
        !agree_below(a, b, n),
    ensures
        lex_lt(a, b) || lex_lt(b, a),
    decreases n,
{
    if agree_below(a, b, n - 1) {
        let m = n - 1;
        if a[m] < b[m] {
            assert(agree_below(a, b, m));
        } else {
            assert(agree_below(b, a, m));
        }
    } else {
        lemma_lex_total(a, b, n - 1);
    }
}

/// Solving is deterministic: any two results that meet the contract of
/// `Puzzle::solve` for the same puzzle are equal.
pub proof fn solve_is_deterministic(p: Seq<u8>, r1: Option<Solution>, r2: Option<Solution>)
    requires
        solve_outcome(p, r1),
        solve_outcome(p, r2),
    ensures
        r1 == r2,
{
    match (r1, r2) {
        (Some(s1), Some(s2)) => {
            if !agree_below(s1@, s2@, 81) {
                lemma_lex_total(s1@, s2@, 81);
            }
            assert(s1@ =~= s2@);
            assert(flatten(s1.0) == flatten(s2.0));
            lemma_flatten_injective(s1.0, s2.0);
        },
        (Some(s1), None) => {
            assert(is_fill(p, s1@));
        },
        (None, Some(s2)) => {
            assert(is_fill(p, s2@));
        },
        (None, None) => {},
    }
}

/// Reading back the compact text of a grid of values up to 9 (what
/// `Puzzle::to_string` gives) yields a puzzle with exactly those cells, so
/// writing that puzzle out again reproduces the text.
pub proof fn compact_text_round_trip(g: Seq<u8>, r: Result<Puzzle, TryIntoPuzzleError>)
    requires
        g.len() == 81,
        forall|k: int| 0 <= k < 81 ==> #[trigger] g[k] <= 9,
        puzzle_cells(r) == check_rows(text_rows(compact_text(g))),
    ensures
        r is Ok,
        r->Ok_0@ == g,
        compact_text(r->Ok_0@) == compact_text(g),
{
    lemma_compact_rows(g);
    let rows = Seq::new(9, |i: int| row_values(g, i));
    assert(!exists|i: int| 0 <= i < rows.len() && #[trigger] rows[i].len() != 9);
    assert forall|k: int| 0 <= k < 81 implies row_cells(rows)[k] == g[k] by {
        lemma_cell_coords(k);
    }
    assert(row_cells(rows) =~= g);
}

} // verus!
