//! The geometry of a 9×9 grid stored row by row in 81 cells, and the
//! mathematical notions the solver is specified with.
use vstd::prelude::*;

verus! {

/// Row of the cell at position `k` in row-major order.
pub open spec fn row_of(k: int) -> int {
    k / 9
}

/// Column of the cell at position `k` in row-major order.
pub open spec fn col_of(k: int) -> int {
    k % 9
}

/// Position of the cell at `row`, `col` in row-major order.
pub open spec fn cell_at(row: int, col: int) -> int {
    row * 9 + col
}

/// A 9×9 grid read row by row as 81 cells.
pub open spec fn flatten(g: [[u8; 9]; 9]) -> Seq<u8> {
    Seq::new(81, |k: int| g@[row_of(k)]@[col_of(k)])
}

/// Grids with the same cells are the same grid.
pub proof fn lemma_flatten_injective(a: [[u8; 9]; 9], b: [[u8; 9]; 9])
    requires
        flatten(a) == flatten(b),
    ensures
        a == b,
{
    assert forall|r: int| 0 <= r < 9 implies a@[r] == b@[r] by {
        assert forall|c: int| 0 <= c < 9 implies a@[r]@[c] == b@[r]@[c] by {
            lemma_coords_cell(r, c);
            let k = cell_at(r, c);
            assert(flatten(a)[k] == a@[row_of(k)]@[col_of(k)]);
            assert(flatten(b)[k] == b@[row_of(k)]@[col_of(k)]);
            assert(flatten(a)[k] == flatten(b)[k]);
        }
        assert(a@[r] =~= b@[r]);
    }
    assert(a =~= b);
}

/// Which of the three bands of three rows (or columns) line `r` lies in.
pub open spec fn band(r: int) -> int {
    r / 3
}

/// The cells at positions `a` and `b` lie in the same 3×3 box.
pub open spec fn same_box(a: int, b: int) -> bool {
    band(row_of(a)) == band(row_of(b)) && band(col_of(a)) == band(col_of(b))
}

/// Distinct cells that share a row, a column or a box.
pub open spec fn is_peer(a: int, b: int) -> bool {
    a != b && (row_of(a) == row_of(b) || col_of(a) == col_of(b) || same_box(a, b))
}

/// `a` and `b` agree on every cell before position `m`.
pub open spec fn agree_below(a: Seq<u8>, b: Seq<u8>, m: int) -> bool {
    forall|j: int| 0 <= j < m ==> a[j] == b[j]
}

/// `a` comes before `b` in lexicographic order over the cells in row-major
/// order.
pub open spec fn lex_lt(a: Seq<u8>, b: Seq<u8>) -> bool {
    exists|m: int| 0 <= m < 81 && #[trigger] agree_below(a, b, m) && a[m] < b[m]
}

/// `t` fills puzzle `p`: every cell holds a digit from 1 to 9, every given
/// (nonzero) cell of `p` keeps its value, and no two peers hold the same
/// digit. A fill is a solved Sudoku grid that keeps the givens.
pub open spec fn is_fill(p: Seq<u8>, t: Seq<u8>) -> bool {
    &&& t.len() == 81
    &&& forall|k: int| 0 <= k < 81 ==> 1 <= #[trigger] t[k] <= 9
    &&& forall|k: int| 0 <= k < 81 && #[trigger] p[k] != 0 ==> t[k] == p[k]
    &&& forall|k: int, j: int| 0 <= k < 81 && 0 <= j < 81 && #[trigger] is_peer(k, j) ==> t[k] != t[j]
}

/// `s` is the fill of `p` that comes first in lexicographic order.
pub open spec fn is_first_fill(p: Seq<u8>, s: Seq<u8>) -> bool {
    is_fill(p, s) && forall|t: Seq<u8>| is_fill(p, t) ==> !lex_lt(t, s)
}

/// No two given cells of `p` that are peers hold the same digit.
pub open spec fn givens_consistent(p: Seq<u8>) -> bool {
    forall|k: int, j: int|
        0 <= k < 81 && 0 <= j < 81 && p[k] != 0 && p[j] != 0 && #[trigger] is_peer(k, j) ==> p[k]
            != p[j]
}

/// What the search fills in: like `is_fill`, but only the cells that `p`
/// leaves open are held apart from their peers; the givens are taken as
/// they are.
pub open spec fn is_open_fill(p: Seq<u8>, t: Seq<u8>) -> bool {
    &&& t.len() == 81
    &&& forall|k: int| 0 <= k < 81 ==> 1 <= #[trigger] t[k] <= 9
    &&& forall|k: int| 0 <= k < 81 && #[trigger] p[k] != 0 ==> t[k] == p[k]
    &&& forall|k: int, j: int|
        0 <= k < 81 && 0 <= j < 81 && p[k] == 0 && #[trigger] is_peer(k, j) ==> t[k] != t[j]
}

/// `s` is the open fill of `p` that comes first in lexicographic order.
pub open spec fn is_first_open_fill(p: Seq<u8>, s: Seq<u8>) -> bool {
    is_open_fill(p, s) && forall|t: Seq<u8>| is_open_fill(p, t) ==> !lex_lt(t, s)
}

/// Every fill is an open fill.
pub proof fn lemma_fill_is_open_fill(p: Seq<u8>, t: Seq<u8>)
    requires
        is_fill(p, t),
    ensures
        is_open_fill(p, t),
{
}

/// When the givens do not clash, an open fill is a fill.
pub proof fn lemma_open_fill_is_fill(p: Seq<u8>, t: Seq<u8>)
    requires
        is_open_fill(p, t),
        givens_consistent(p),
    ensures
        is_fill(p, t),
{
    assert forall|k: int, j: int| 0 <= k < 81 && 0 <= j < 81 && #[trigger] is_peer(k, j) implies t[k] != t[j] by {
        if p[k] == 0 {
        } else if p[j] == 0 {
            assert(is_peer(j, k));
        } else {
        }
    }
}

/// When two givens clash, nothing fills the puzzle.
pub proof fn lemma_clash_no_fill(p: Seq<u8>, t: Seq<u8>)
    requires
        !givens_consistent(p),
    ensures
        !is_fill(p, t),
{
    if is_fill(p, t) {
        let (k, j) = choose|k: int, j: int|
            0 <= k < 81 && 0 <= j < 81 && p[k] != 0 && p[j] != 0 && #[trigger] is_peer(k, j) && p[k] == p[j];
        assert(t[k] == p[k] && t[j] == p[j]);
    }
}

/// Number of cells `j < n` that are peers of `q` and hold `v` in `g`.
pub open spec fn peer_count(g: Seq<u8>, q: int, v: u8, n: int) -> nat
    decreases n,
{
    if n <= 0 {
        0
    } else {
        peer_count(g, q, v, n - 1) + if is_peer(q, n - 1) && g[n - 1] == v {
            1nat
        } else {
            0nat
        }
    }
}

/// Row and column recover a position, and a position recovers its row and column.
pub proof fn lemma_cell_coords(k: int)
    requires
        0 <= k < 81,
    ensures
        0 <= row_of(k) < 9,
        0 <= col_of(k) < 9,
        k == cell_at(row_of(k), col_of(k)),
{
}

pub proof fn lemma_coords_cell(row: int, col: int)
    requires
        0 <= row < 9,
        0 <= col < 9,
    ensures
        row_of(cell_at(row, col)) == row,
        col_of(cell_at(row, col)) == col,
        0 <= cell_at(row, col) < 81,
{
}

pub proof fn lemma_peer_count_bound(g: Seq<u8>, q: int, v: u8, n: int)
    ensures
        peer_count(g, q, v, n) <= if n <= 0 { 0 } else { n },
    decreases n,
{
    if n > 0 {
        lemma_peer_count_bound(g, q, v, n - 1);
    }
}

/// The count is zero exactly when no peer below `n` holds `v`.
pub proof fn lemma_peer_count_zero(g: Seq<u8>, q: int, v: u8, n: int)
    ensures
        peer_count(g, q, v, n) == 0 <==> forall|j: int|
            0 <= j < n ==> !(is_peer(q, j) && #[trigger] g[j] == v),
    decreases n,
{
    if n > 0 {
        lemma_peer_count_zero(g, q, v, n - 1);
    }
}

/// A peer below `n` that holds `v` is counted.
pub proof fn lemma_peer_count_positive(g: Seq<u8>, q: int, v: u8, n: int, j: int)
    requires
        0 <= j < n,
        is_peer(q, j),
        g[j] == v,
    ensures
        peer_count(g, q, v, n) >= 1,
{
    lemma_peer_count_zero(g, q, v, n);
}

/// Writing `w` into cell `c` moves each count by what cell `c` contributes.
pub proof fn lemma_peer_count_update(g: Seq<u8>, q: int, v: u8, n: int, c: int, w: u8)
    requires
        0 <= c < g.len(),
        n <= g.len(),
    ensures
        peer_count(g.update(c, w), q, v, n) + (if 0 <= c < n && is_peer(q, c) && g[c] == v {
            1int
        } else {
            0int
        }) == peer_count(g, q, v, n) + (if 0 <= c < n && is_peer(q, c) && w == v {
            1int
        } else {
            0int
        }),
    decreases n,
{
    if n > 0 {
        lemma_peer_count_update(g, q, v, n - 1, c, w);
    }
}

/// The row (or column) reached from `r` by `a` cyclic steps within its band
/// of three.
pub open spec fn band_step(r: int, a: int) -> int {
    r - r % 3 + (r % 3 + a) % 3
}

/// One of the four cells of the box of `row`, `col` that share neither its
/// row nor its column (`a` and `b` are 1 or 2).
pub open spec fn box_cell(row: int, col: int, a: int, b: int) -> int {
    cell_at(band_step(row, a), band_step(col, b))
}

/// The cells that share the box of `row`, `col` but neither its row nor its
/// column.
pub open spec fn is_box_only_peer(row: int, col: int, q: int) -> bool {
    same_box(cell_at(row, col), q) && row_of(q) != row && col_of(q) != col
}

/// The two other lines of a band.
pub proof fn lemma_band_step(r: int)
    requires
        0 <= r < 9,
    ensures
        0 <= band_step(r, 1) < 9,
        0 <= band_step(r, 2) < 9,
        band_step(r, 1) != band_step(r, 2),
        forall|s: int|
            0 <= s < 9 ==> (#[trigger] band(s) == band(r) && s != r <==> (s == band_step(r, 1) || s == band_step(
                r,
                2,
            ))),
{
}

/// The four cells named by `box_cell` are in the grid, distinct, and are
/// exactly the box-only peers.
#[verifier::rlimit(40)]
pub proof fn lemma_box_cells(row: int, col: int)
    requires
        0 <= row < 9,
        0 <= col < 9,
    ensures
        0 <= box_cell(row, col, 1, 1) < 81,
        0 <= box_cell(row, col, 1, 2) < 81,
        0 <= box_cell(row, col, 2, 1) < 81,
        0 <= box_cell(row, col, 2, 2) < 81,
        box_cell(row, col, 1, 1) != box_cell(row, col, 1, 2),
        box_cell(row, col, 1, 1) != box_cell(row, col, 2, 1),
        box_cell(row, col, 1, 1) != box_cell(row, col, 2, 2),
        box_cell(row, col, 1, 2) != box_cell(row, col, 2, 1),
        box_cell(row, col, 1, 2) != box_cell(row, col, 2, 2),
        box_cell(row, col, 2, 1) != box_cell(row, col, 2, 2),
        forall|q: int|
            0 <= q < 81 ==> (is_box_only_peer(row, col, q) <==> (q == box_cell(row, col, 1, 1) || q
                == box_cell(row, col, 1, 2) || q == box_cell(row, col, 2, 1) || q == box_cell(
                row,
                col,
                2,
                2,
            ))),
{
    lemma_band_step(row);
    lemma_band_step(col);
    lemma_coords_cell(row, col);
    lemma_coords_cell(band_step(row, 1), band_step(col, 1));
    lemma_coords_cell(band_step(row, 1), band_step(col, 2));
    lemma_coords_cell(band_step(row, 2), band_step(col, 1));
    lemma_coords_cell(band_step(row, 2), band_step(col, 2));
    assert forall|q: int| 0 <= q < 81 implies (is_box_only_peer(row, col, q) <==> (q == box_cell(
        row,
        col,
        1,
        1,
    ) || q == box_cell(row, col, 1, 2) || q == box_cell(row, col, 2, 1) || q == box_cell(
        row,
        col,
        2,
        2,
    ))) by {
        lemma_cell_coords(q);
    }
}

/// The peers of the cell at `row`, `col` fall into three disjoint groups:
/// the rest of its row, the rest of its column, and the cells of its box that
/// share neither.
pub proof fn lemma_peer_groups(row: int, col: int, q: int)
    requires
        0 <= row < 9,
        0 <= col < 9,
        0 <= q < 81,
    ensures
        is_peer(cell_at(row, col), q) <==> ((row_of(q) == row && col_of(q) != col) || (col_of(q)
            == col && row_of(q) != row) || is_box_only_peer(row, col, q)),
{
    lemma_coords_cell(row, col);
    lemma_cell_coords(q);
}

} // verus!
