//! The constraint-tracking backtracking search.
use vstd::prelude::*;

use crate::coords::Coords;
use crate::grid::{
    agree_below, box_cell, cell_at, col_of, flatten, givens_consistent, is_box_only_peer, is_fill,
    is_first_fill, is_first_open_fill, is_open_fill, is_peer, lemma_band_step, lemma_box_cells,
    lemma_cell_coords, lemma_clash_no_fill, lemma_coords_cell, lemma_fill_is_open_fill,
    lemma_open_fill_is_fill, lemma_peer_count_bound, lemma_peer_count_positive,
    lemma_peer_count_update, lemma_peer_count_zero, lemma_peer_groups, lex_lt, peer_count, row_of,
};
use crate::obstruction::Obstruction;
use crate::puzzle::{Puzzle, Solution};

verus! {

/// How a pass over a cell's peers changes their counts.
pub open spec fn step(inc: bool) -> int {
    if inc {
        1
    } else {
        -1
    }
}

/// Number of times the first stage of a pass over the peers of `row`, `col`
/// has reached cell `q` after `i` rounds: the rest of the row and the rest of
/// the column, both up to index `i`.
spec fn line_visits(row: int, col: int, i: int, q: int) -> int {
    (if row_of(q) == row && col_of(q) < i && col_of(q) != col {
        1int
    } else {
        0int
    }) + (if col_of(q) == col && row_of(q) < i && row_of(q) != row {
        1int
    } else {
        0int
    })
}

/// The working state of one search: the grid being filled and, for each cell
/// that the puzzle leaves open, its obstruction record. Given cells have none.
pub struct InProgress {
    pub puzzle: Vec<u8>,
    pub obstructions: Vec<Option<Obstruction>>,
}

impl InProgress {
    /// The count that cell `q` keeps for digit `d` (zero for a given cell).
    pub open spec fn count_at(self, q: int, d: int) -> int {
        match self.obstructions@[q] {
            Some(o) => o.count(d),
            None => 0,
        }
    }

    pub open spec fn is_open(self, q: int) -> bool {
        self.obstructions@[q] is Some
    }

    pub open spec fn sized(self) -> bool {
        self.puzzle@.len() == 81 && self.obstructions@.len() == 81
    }

    /// Same grid, same open cells.
    pub open spec fn same_layout(self, other: InProgress) -> bool {
        &&& self.puzzle@ == other.puzzle@
        &&& self.obstructions@.len() == other.obstructions@.len()
        &&& forall|q: int| 0 <= q < 81 ==> (self.is_open(q) <==> other.is_open(q))
    }

    /// Move the count for `number` at cell `k` by one, if `k` keeps a record.
    fn adjust_obstruction(&mut self, k: usize, number: u8, inc: bool)
        requires
            old(self).sized(),
            k < 81,
            1 <= number <= 9,
            old(self).is_open(k as int) ==> if inc {
                old(self).count_at(k as int, number as int) < 255
            } else {
                old(self).count_at(k as int, number as int) > 0
            },
        ensures
            final(self).sized(),
            final(self).same_layout(*old(self)),
            forall|q: int, d: int|
                0 <= q < 81 && 1 <= d <= 9 ==> #[trigger] final(self).count_at(q, d) == old(
                    self,
                ).count_at(q, d) + if q == k && d == number && old(self).is_open(q) {
                    step(inc)
                } else {
                    0
                },
    {
        match self.obstructions[k] {
            Some(o) => {
                let mut o2 = o;
                if inc {
                    o2.add(number);
                } else {
                    o2.remove(number);
                }
                self.obstructions[k] = Some(o2);
            },
            None => {},
        }
    }

    /// The first stage of a pass over the peers of the cell at `y`, `x`:
    /// the rest of its row and the rest of its column.
    #[verifier::rlimit(40)]
    fn foreach_line_peer(&mut self, y: usize, x: usize, number: u8, inc: bool)
        requires
            old(self).sized(),
            y < 9,
            x < 9,
            1 <= number <= 9,
            forall|q: int|
                0 <= q < 81 && is_peer(cell_at(y as int, x as int), q) && old(self).is_open(q)
                    ==> if inc {
                    old(self).count_at(q, number as int) < 255
                } else {
                    old(self).count_at(q, number as int) > 0
                },
        ensures
            final(self).sized(),
            final(self).same_layout(*old(self)),
            forall|q: int, d: int|
                0 <= q < 81 && 1 <= d <= 9 ==> #[trigger] final(self).count_at(q, d) == old(
                    self,
                ).count_at(q, d) + if d == number && old(self).is_open(q) {
                    step(inc) * line_visits(y as int, x as int, 9, q)
                } else {
                    0
                },
    {
        let ghost start = *self;
        let ghost c = cell_at(y as int, x as int);
        let mut i: usize = 0;
        while i < 9
            invariant
                i <= 9,
                y < 9,
                x < 9,
                1 <= number <= 9,
                c == cell_at(y as int, x as int),
                self.sized(),
                self.same_layout(start),
                start.sized(),
                forall|q: int|
                    0 <= q < 81 && is_peer(c, q) && start.is_open(q) ==> if inc {
                        start.count_at(q, number as int) < 255
                    } else {
                        start.count_at(q, number as int) > 0
                    },
                forall|q: int, d: int|
                    0 <= q < 81 && 1 <= d <= 9 ==> #[trigger] self.count_at(q, d) == start.count_at(
                        q,
                        d,
                    ) + if d == number && start.is_open(q) {
                        step(inc) * line_visits(y as int, x as int, i as int, q)
                    } else {
                        0
                    },
            decreases 9 - i,
        {
            proof {
                lemma_coords_cell(y as int, i as int);
                lemma_coords_cell(i as int, x as int);
                lemma_peer_groups(y as int, x as int, cell_at(y as int, i as int));
                lemma_peer_groups(y as int, x as int, cell_at(i as int, x as int));
            }
            let ghost s0 = *self;
            if i != x {
                self.adjust_obstruction(y * 9 + i, number, inc);
            }
            let ghost s1 = *self;
            if i != y {
                self.adjust_obstruction(i * 9 + x, number, inc);
            }
            proof {
                assert forall|q: int, d: int| 0 <= q < 81 && 1 <= d <= 9 implies #[trigger] self.count_at(q, d)
                    == start.count_at(q, d) + if d == number && start.is_open(q) {
                    step(inc) * line_visits(y as int, x as int, i + 1, q)
                } else {
                    0
                } by {
                    lemma_cell_coords(q);
                    assert((q == cell_at(y as int, i as int)) == (row_of(q) == y && col_of(q) == i));
                    assert((q == cell_at(i as int, x as int)) == (row_of(q) == i && col_of(q) == x));
                    assert(s0.count_at(q, d) == start.count_at(q, d) + if d == number && start.is_open(q) {
                        step(inc) * line_visits(y as int, x as int, i as int, q)
                    } else {
                        0
                    });
                    assert(s1.count_at(q, d) == s0.count_at(q, d) + if i != x && q == cell_at(y as int, i as int) && d == number && s0.is_open(q) {
                        step(inc)
                    } else {
                        0
                    });
                    assert(self.count_at(q, d) == s1.count_at(q, d) + if i != y && q == cell_at(i as int, x as int) && d == number && s1.is_open(q) {
                        step(inc)
                    } else {
                        0
                    });
                }
            }
            i = i + 1;
        }
    }

    /// Move the count for `number` by one at every peer of the cell at
    /// `y`, `x` that keeps a record.
    #[verifier::rlimit(40)]
    fn foreach_obstructed(&mut self, y: usize, x: usize, number: u8, inc: bool)
        requires
            old(self).sized(),
            y < 9,
            x < 9,
            1 <= number <= 9,
            forall|q: int|
                0 <= q < 81 && is_peer(cell_at(y as int, x as int), q) && old(self).is_open(q)
                    ==> if inc {
                    old(self).count_at(q, number as int) < 255
                } else {
                    old(self).count_at(q, number as int) > 0
                },
        ensures
            final(self).sized(),
            final(self).same_layout(*old(self)),
            forall|q: int, d: int|
                0 <= q < 81 && 1 <= d <= 9 ==> #[trigger] final(self).count_at(q, d) == old(
                    self,
                ).count_at(q, d) + if d == number && is_peer(cell_at(y as int, x as int), q)
                    && old(self).is_open(q) {
                    step(inc)
                } else {
                    0
                },
    {
        let ghost start = *self;
        let ghost c = cell_at(y as int, x as int);
        self.foreach_line_peer(y, x, number, inc);
        let b11 = box_peer(y, x, 1, 1);
        let b12 = box_peer(y, x, 1, 2);
        let b21 = box_peer(y, x, 2, 1);
        let b22 = box_peer(y, x, 2, 2);
        proof {
            lemma_box_cells(y as int, x as int);
            lemma_peer_groups(y as int, x as int, b11 as int);
            lemma_peer_groups(y as int, x as int, b12 as int);
            lemma_peer_groups(y as int, x as int, b21 as int);
            lemma_peer_groups(y as int, x as int, b22 as int);
            assert(line_visits(y as int, x as int, 9, b11 as int) == 0);
            assert(line_visits(y as int, x as int, 9, b12 as int) == 0);
            assert(line_visits(y as int, x as int, 9, b21 as int) == 0);
            assert(line_visits(y as int, x as int, 9, b22 as int) == 0);
        }
        let ghost lined = *self;
        self.adjust_obstruction(b11, number, inc);
        self.adjust_obstruction(b12, number, inc);
        self.adjust_obstruction(b21, number, inc);
        self.adjust_obstruction(b22, number, inc);
        proof {
            assert forall|q: int, d: int| 0 <= q < 81 && 1 <= d <= 9 implies #[trigger] self.count_at(q, d)
                == start.count_at(q, d) + if d == number && is_peer(c, q) && start.is_open(q) {
                step(inc)
            } else {
                0
            } by {
                lemma_peer_groups(y as int, x as int, q);
                assert(lined.count_at(q, d) == start.count_at(q, d) + if d == number && start.is_open(q) {
                    step(inc) * line_visits(y as int, x as int, 9, q)
                } else {
                    0
                });
                if line_visits(y as int, x as int, 9, q) != 0 {
                    assert(!is_box_only_peer(y as int, x as int, q));
                }
            }
        }
    }
}

impl InProgress {
    /// The state agrees with puzzle `p`: exactly the open cells of `p` keep a
    /// record, given cells hold their value, every cell holds at most 9, and
    /// each record counts exactly the peers that hold each digit.
    pub open spec fn tracks(self, p: Seq<u8>) -> bool {
        &&& self.sized()
        &&& p.len() == 81
        &&& forall|q: int| 0 <= q < 81 ==> #[trigger] p[q] <= 9
        &&& forall|q: int| 0 <= q < 81 ==> (self.is_open(q) <==> #[trigger] p[q] == 0)
        &&& forall|q: int| 0 <= q < 81 ==> #[trigger] self.puzzle@[q] <= 9
        &&& forall|q: int| 0 <= q < 81 && p[q] != 0 ==> #[trigger] self.puzzle@[q] == p[q]
        &&& forall|q: int, d: int|
            0 <= q < 81 && 1 <= d <= 9 && p[q] == 0 ==> #[trigger] self.count_at(q, d)
                == peer_count(self.puzzle@, q, d as u8, 81)
    }

    /// Count the digit of the cell at `y`, `x` at each of its peers.
    fn add_obstruction(&mut self, y: usize, x: usize)
        requires
            old(self).sized(),
            y < 9,
            x < 9,
            1 <= old(self).puzzle@[cell_at(y as int, x as int)] <= 9,
            forall|q: int|
                0 <= q < 81 && is_peer(cell_at(y as int, x as int), q) && old(self).is_open(q)
                    ==> old(self).count_at(q, old(self).puzzle@[cell_at(y as int, x as int)] as int)
                    < 255,
        ensures
            final(self).sized(),
            final(self).same_layout(*old(self)),
            forall|q: int, d: int|
                0 <= q < 81 && 1 <= d <= 9 ==> #[trigger] final(self).count_at(q, d) == old(
                    self,
                ).count_at(q, d) + if d == old(self).puzzle@[cell_at(y as int, x as int)]
                    && is_peer(cell_at(y as int, x as int), q) && old(self).is_open(q) {
                    1int
                } else {
                    0int
                },
    {
        let num = self.puzzle[y * 9 + x];
        self.foreach_obstructed(y, x, num, true);
    }

    /// Stop counting the digit of the cell at `y`, `x` at its peers.
    fn remove_obstruction(&mut self, y: usize, x: usize)
        requires
            old(self).sized(),
            y < 9,
            x < 9,
            1 <= old(self).puzzle@[cell_at(y as int, x as int)] <= 9,
            forall|q: int|
                0 <= q < 81 && is_peer(cell_at(y as int, x as int), q) && old(self).is_open(q)
                    ==> old(self).count_at(q, old(self).puzzle@[cell_at(y as int, x as int)] as int)
                    > 0,
        ensures
            final(self).sized(),
            final(self).same_layout(*old(self)),
            forall|q: int, d: int|
                0 <= q < 81 && 1 <= d <= 9 ==> #[trigger] final(self).count_at(q, d) == old(
                    self,
                ).count_at(q, d) - if d == old(self).puzzle@[cell_at(y as int, x as int)]
                    && is_peer(cell_at(y as int, x as int), q) && old(self).is_open(q) {
                    1int
                } else {
                    0int
                },
    {
        let num = self.puzzle[y * 9 + x];
        self.foreach_obstructed(y, x, num, false);
    }

    /// The working state for puzzle `p`: its grid, a fresh record for each
    /// open cell, and the given cells counted at their peers.
    #[verifier::rlimit(40)]
    fn new(p: &Puzzle) -> (r: InProgress)
        ensures
            r.tracks(p@),
            r.puzzle@ == p@,
    {
        proof {
            use_type_invariant(p);
        }
        let mut puzzle: Vec<u8> = Vec::new();
        let mut obstructions: Vec<Option<Obstruction>> = Vec::new();
        let fresh = Obstruction::new();
        let mut k: usize = 0;
        while k < 81
            invariant
                k <= 81,
                puzzle@.len() == k,
                obstructions@.len() == k,
                forall|q: int| 0 <= q < k ==> #[trigger] puzzle@[q] == p@[q],
                forall|q: int| 0 <= q < 81 ==> #[trigger] p@[q] <= 9,
                forall|q: int| 0 <= q < k ==> #[trigger] obstructions@[q] == Some(fresh),
            decreases 81 - k,
        {
            proof {
                lemma_cell_coords(k as int);
            }
            puzzle.push(p.0[k / 9][k % 9]);
            obstructions.push(Some(fresh));
            k = k + 1;
        }
        let mut scratch = InProgress { puzzle, obstructions };
        let ghost g = scratch.puzzle@;
        assert(g =~= p@);
        assert forall|q: int, d: int| 0 <= q < 81 && 1 <= d <= 9 && scratch.is_open(q) implies #[trigger] scratch.count_at(q, d)
            == peer_count(g, q, d as u8, 0) by {
            assert(scratch.obstructions@[q] == Some(fresh));
        }
        let mut k: usize = 0;
        while k < 81
            invariant
                k <= 81,
                scratch.sized(),
                scratch.puzzle@ == g,
                g == p@,
                forall|q: int| 0 <= q < 81 ==> #[trigger] g[q] <= 9,
                forall|q: int| 0 <= q < 81 ==> (scratch.is_open(q) <==> (q >= k || #[trigger] g[q] == 0)),
                forall|q: int, d: int|
                    0 <= q < 81 && 1 <= d <= 9 && scratch.is_open(q) ==> #[trigger] scratch.count_at(q, d)
                        == peer_count(g, q, d as u8, k as int),
            decreases 81 - k,
        {
            proof {
                lemma_cell_coords(k as int);
            }
            let y = k / 9;
            let x = k % 9;
            let ghost before = scratch;
            if scratch.puzzle[k] != 0 {
                scratch.obstructions[k] = None;
                proof {
                    assert forall|q: int| 0 <= q < 81 && is_peer(cell_at(y as int, x as int), q) && scratch.is_open(q)
                        implies scratch.count_at(q, g[k as int] as int) < 255 by {
                        assert(before.count_at(q, g[k as int] as int) == peer_count(g, q, g[k as int], k as int));
                        lemma_peer_count_bound(g, q, g[k as int], k as int);
                    }
                }
                let ghost mid = scratch;
                scratch.add_obstruction(y, x);
                proof {
                    assert forall|q: int, d: int|
                        0 <= q < 81 && 1 <= d <= 9 && scratch.is_open(q) implies #[trigger] scratch.count_at(q, d)
                            == peer_count(g, q, d as u8, k + 1) by {
                        assert(is_peer(q, k as int) == is_peer(cell_at(y as int, x as int), q));
                        assert(mid.count_at(q, d) == before.count_at(q, d));
                    }
                }
            } else {
                proof {
                    assert forall|q: int, d: int|
                        0 <= q < 81 && 1 <= d <= 9 && scratch.is_open(q) implies #[trigger] scratch.count_at(q, d)
                            == peer_count(g, q, d as u8, k + 1) by {
                        assert(before.count_at(q, d) == peer_count(g, q, d as u8, k as int));
                    }
                }
            }
            k = k + 1;
        }
        scratch
    }
}

/// Every open cell that holds a digit differs from all its peers.
pub open spec fn placed_clear(p: Seq<u8>, g: Seq<u8>) -> bool {
    forall|q: int, j: int|
        0 <= q < 81 && 0 <= j < 81 && p[q] == 0 && g[q] != 0 && #[trigger] is_peer(q, j) ==> g[q]
            != g[j]
}

/// Fill `t` has not been passed over by a search that stands at cell `k`
/// with grid `g`: it is not below `g` on the cells before `k`, and if it
/// agrees with `g` there and `k` is open, its digit at `k` is above the last
/// one tried.
pub open spec fn not_passed(p: Seq<u8>, g: Seq<u8>, k: int, t: Seq<u8>) -> bool {
    &&& forall|j: int| 0 <= j < k && #[trigger] agree_below(t, g, j) ==> t[j] >= g[j]
    &&& (0 <= k < 81 && p[k] == 0 && agree_below(t, g, k)) ==> t[k] > g[k]
}

/// The state of the search for puzzle `p` standing at cell `k`: open cells
/// before `k` hold digits, open cells after it are empty, no placed digit
/// clashes with a peer, and no fill has been passed over.
pub open spec fn searching(st: InProgress, p: Seq<u8>, k: int) -> bool {
    &&& 0 <= k <= 81
    &&& st.tracks(p)
    &&& placed_clear(p, st.puzzle@)
    &&& forall|q: int| 0 <= q < 81 && p[q] == 0 && q < k ==> #[trigger] st.puzzle@[q] != 0
    &&& forall|q: int| 0 <= q < 81 && p[q] == 0 && q > k ==> #[trigger] st.puzzle@[q] == 0
    &&& forall|t: Seq<u8>| #[trigger] is_open_fill(p, t) ==> not_passed(p, st.puzzle@, k, t)
}

/// The search position as digits in base 11: a given cell contributes its
/// value, an open cell before the cursor its digit, the cursor's cell one
/// more than its digit, a later open cell zero. Each step of the search
/// makes this number grow, or keeps it and moves the cursor forward.
pub open spec fn rank(p: Seq<u8>, g: Seq<u8>, k: int) -> Seq<int> {
    Seq::new(
        81,
        |j: int|
            if p[j] != 0 {
                p[j] as int
            } else if j < k {
                g[j] as int
            } else if j == k {
                g[j] + 1
            } else {
                0
            },
    )
}

/// The first `n` digits of `d` read as a number in base 11.
pub open spec fn base11(d: Seq<int>, n: int) -> int
    decreases n,
{
    if n <= 0 {
        0
    } else {
        base11(d, n - 1) * 11 + d[n - 1]
    }
}

pub open spec fn pow11(n: int) -> int
    decreases n,
{
    if n <= 0 {
        1
    } else {
        pow11(n - 1) * 11
    }
}

proof fn lemma_base11_bound(d: Seq<int>, n: int)
    requires
        0 <= n <= d.len(),
        forall|j: int| 0 <= j < n ==> 0 <= #[trigger] d[j] <= 10,
    ensures
        0 <= base11(d, n) < pow11(n),
    decreases n,
{
    if n > 0 {
        lemma_base11_bound(d, n - 1);
    }
}

proof fn lemma_base11_agree(a: Seq<int>, b: Seq<int>, n: int)
    requires
        forall|j: int| 0 <= j < n ==> #[trigger] a[j] == b[j],
    ensures
        base11(a, n) == base11(b, n),
    decreases n,
{
    if n > 0 {
        lemma_base11_agree(a, b, n - 1);
    }
}

/// A larger digit at the first difference gives a larger number.
proof fn lemma_base11_lt(a: Seq<int>, b: Seq<int>, m: int, n: int)
    requires
        0 <= m < n <= a.len(),
        n <= b.len(),
        forall|j: int| 0 <= j < m ==> #[trigger] a[j] == b[j],
        a[m] < b[m],
        forall|j: int| 0 <= j < n ==> 0 <= #[trigger] a[j] <= 10,
        forall|j: int| 0 <= j < n ==> 0 <= #[trigger] b[j] <= 10,
    ensures
        base11(a, n) < base11(b, n),
    decreases n,
{
    if n == m + 1 {
        lemma_base11_agree(a, b, m);
    } else {
        lemma_base11_lt(a, b, m, n - 1);
    }
}

proof fn lemma_rank_digits(p: Seq<u8>, g: Seq<u8>, k: int)
    requires
        p.len() == 81,
        g.len() == 81,
        forall|q: int| 0 <= q < 81 ==> #[trigger] p[q] <= 9,
        forall|q: int| 0 <= q < 81 ==> #[trigger] g[q] <= 9,
    ensures
        forall|j: int| 0 <= j < 81 ==> 0 <= #[trigger] rank(p, g, k)[j] <= 10,
        0 <= base11(rank(p, g, k), 81) < pow11(81),
{
    lemma_base11_bound(rank(p, g, k), 81);
}

/// If the ranks first differ at `m`, upwards, the number grows.
proof fn lemma_rank_grows(p: Seq<u8>, g1: Seq<u8>, k1: int, g2: Seq<u8>, k2: int, m: int)
    requires
        p.len() == 81,
        g1.len() == 81,
        g2.len() == 81,
        forall|q: int| 0 <= q < 81 ==> #[trigger] p[q] <= 9,
        forall|q: int| 0 <= q < 81 ==> #[trigger] g1[q] <= 9,
        forall|q: int| 0 <= q < 81 ==> #[trigger] g2[q] <= 9,
        0 <= m < 81,
        forall|j: int| 0 <= j < m ==> #[trigger] rank(p, g1, k1)[j] == rank(p, g2, k2)[j],
        rank(p, g1, k1)[m] < rank(p, g2, k2)[m],
    ensures
        base11(rank(p, g1, k1), 81) < base11(rank(p, g2, k2), 81),
{
    lemma_rank_digits(p, g1, k1);
    lemma_rank_digits(p, g2, k2);
    lemma_base11_lt(rank(p, g1, k1), rank(p, g2, k2), m, 81);
}

/// A digit with an obstruction at open cell `k` cannot stand at `k` in a
/// fill that agrees with the search grid before `k`.
proof fn lemma_blocked(p: Seq<u8>, g: Seq<u8>, k: int, c: u8, t: Seq<u8>)
    requires
        p.len() == 81,
        g.len() == 81,
        0 <= k < 81,
        p[k] == 0,
        forall|q: int| 0 <= q < 81 && p[q] == 0 && q > k ==> #[trigger] g[q] == 0,
        forall|q: int| 0 <= q < 81 && p[q] != 0 ==> #[trigger] g[q] == p[q],
        is_open_fill(p, t),
        agree_below(t, g, k),
        1 <= c <= 9,
        peer_count(g, k, c, 81) > 0,
    ensures
        t[k] != c,
{
    lemma_peer_count_zero(g, k, c, 81);
    let i = choose|i: int| 0 <= i < 81 && is_peer(k, i) && g[i] == c;
    assert(t[k] != t[i]);
    if i > k && p[i] == 0 {
        assert(g[i] == 0);
    }
}

/// Writing digit `w` into the empty open cell `k` and counting it at the
/// peers keeps the state in step with the puzzle.
proof fn lemma_place(st0: InProgress, st1: InProgress, p: Seq<u8>, k: int, w: u8)
    requires
        st0.tracks(p),
        placed_clear(p, st0.puzzle@),
        0 <= k < 81,
        p[k] == 0,
        st0.puzzle@[k] == 0,
        1 <= w <= 9,
        peer_count(st0.puzzle@, k, w, 81) == 0,
        st1.sized(),
        st1.puzzle@ == st0.puzzle@.update(k, w),
        forall|q: int| 0 <= q < 81 ==> (st1.is_open(q) <==> st0.is_open(q)),
        forall|q: int, d: int|
            0 <= q < 81 && 1 <= d <= 9 ==> #[trigger] st1.count_at(q, d) == st0.count_at(q, d) + if d
                == w && is_peer(k, q) && st0.is_open(q) {
                1int
            } else {
                0int
            },
    ensures
        st1.tracks(p),
        placed_clear(p, st1.puzzle@),
{
    let g0 = st0.puzzle@;
    let g1 = st1.puzzle@;
    assert forall|q: int, d: int| 0 <= q < 81 && 1 <= d <= 9 && p[q] == 0 implies #[trigger] st1.count_at(q, d)
        == peer_count(g1, q, d as u8, 81) by {
        lemma_peer_count_update(g0, q, d as u8, 81, k, w);
    }
    lemma_peer_count_zero(g0, k, w, 81);
    assert forall|q: int, j: int|
        0 <= q < 81 && 0 <= j < 81 && p[q] == 0 && g1[q] != 0 && #[trigger] is_peer(q, j) implies g1[q]
            != g1[j] by {
        if q == k {
            assert(g0[j] != w);
        } else if j == k {
            assert(is_peer(k, q));
            assert(g0[q] != w);
        } else {
            assert(g0[q] != g0[j]);
        }
    }
}

/// Taking the digit out of open cell `k` and uncounting it at the peers
/// keeps the state in step with the puzzle.
proof fn lemma_retract(st0: InProgress, st1: InProgress, p: Seq<u8>, k: int)
    requires
        st0.tracks(p),
        placed_clear(p, st0.puzzle@),
        0 <= k < 81,
        p[k] == 0,
        st0.puzzle@[k] != 0,
        st1.sized(),
        st1.puzzle@ == st0.puzzle@.update(k, 0),
        forall|q: int| 0 <= q < 81 ==> (st1.is_open(q) <==> st0.is_open(q)),
        forall|q: int, d: int|
            0 <= q < 81 && 1 <= d <= 9 ==> #[trigger] st1.count_at(q, d) == st0.count_at(q, d) - if d
                == st0.puzzle@[k] && is_peer(k, q) && st0.is_open(q) {
                1int
            } else {
                0int
            },
    ensures
        st1.tracks(p),
        placed_clear(p, st1.puzzle@),
{
    let g0 = st0.puzzle@;
    let g1 = st1.puzzle@;
    assert forall|q: int, d: int| 0 <= q < 81 && 1 <= d <= 9 && p[q] == 0 implies #[trigger] st1.count_at(q, d)
        == peer_count(g1, q, d as u8, 81) by {
        lemma_peer_count_update(g0, q, d as u8, 81, k, 0);
    }
    assert forall|q: int, j: int|
        0 <= q < 81 && 0 <= j < 81 && p[q] == 0 && g1[q] != 0 && #[trigger] is_peer(q, j) implies g1[q]
            != g1[j] by {
        if q != k && j != k {
            assert(g0[q] != g0[j]);
        }
    }
}

/// Passing a given cell keeps the search state, and its rank does not drop.
proof fn lemma_given_step(st: InProgress, p: Seq<u8>, k: int)
    requires
        searching(st, p, k),
        0 <= k < 81,
        p[k] != 0,
    ensures
        searching(st, p, k + 1),
        base11(rank(p, st.puzzle@, k), 81) <= base11(rank(p, st.puzzle@, k + 1), 81),
{
    let g = st.puzzle@;
    assert forall|t: Seq<u8>| #[trigger] is_open_fill(p, t) implies not_passed(p, g, k + 1, t) by {
        assert(not_passed(p, g, k, t));
        assert forall|j: int| 0 <= j < k + 1 && #[trigger] agree_below(t, g, j) implies t[j] >= g[j] by {
            if j == k {
                assert(t[k] == p[k]);
            }
        }
        if k + 1 < 81 && p[k + 1] == 0 && agree_below(t, g, k + 1) {
            assert(g[k + 1] == 0);
            assert(t[k + 1] >= 1);
        }
    }
    if k + 1 < 81 && p[k + 1] == 0 {
        assert(g[k + 1] == 0);
        lemma_rank_grows(p, g, k, g, k + 1, k + 1);
    } else {
        assert(rank(p, g, k) =~= rank(p, g, k + 1));
    }
}

/// After open cell `k` took digit `c`, the first digit above its last try
/// that no peer holds, the search moves on to `k + 1`.
#[verifier::rlimit(40)]
proof fn lemma_place_step(
    st0: InProgress,
    st1: InProgress,
    st2: InProgress,
    p: Seq<u8>,
    k: int,
    c: u8,
)
    requires
        searching(st0, p, k),
        0 <= k < 81,
        p[k] == 0,
        st1.tracks(p),
        st1.puzzle@ == st0.puzzle@.update(k, 0),
        st0.puzzle@[k] < c <= 9,
        forall|e: u8|
            st0.puzzle@[k] < e < c ==> #[trigger] peer_count(st1.puzzle@, k, e, 81) > 0,
        st2.tracks(p),
        placed_clear(p, st2.puzzle@),
        st2.puzzle@ == st1.puzzle@.update(k, c),
    ensures
        searching(st2, p, k + 1),
        base11(rank(p, st0.puzzle@, k), 81) <= base11(rank(p, st2.puzzle@, k + 1), 81),
{
    let g0 = st0.puzzle@;
    let g1 = st1.puzzle@;
    let g2 = st2.puzzle@;
    assert forall|t: Seq<u8>| #[trigger] is_open_fill(p, t) implies not_passed(p, g2, k + 1, t) by {
        assert(not_passed(p, g0, k, t));
        assert forall|j: int| 0 <= j < k + 1 && #[trigger] agree_below(t, g2, j) implies t[j] >= g2[j] by {
            if j < k {
                assert(agree_below(t, g0, j));
            } else {
                assert(agree_below(t, g0, k));
                assert(agree_below(t, g1, k));
                if t[k] < c {
                    let e = t[k];
                    assert(g0[k] < e);
                    lemma_blocked(p, g1, k, e, t);
                }
            }
        }
        if k + 1 < 81 && p[k + 1] == 0 && agree_below(t, g2, k + 1) {
            assert(t[k + 1] >= 1);
        }
    }
    assert forall|q: int| 0 <= q < 81 && p[q] == 0 && q < k + 1 implies #[trigger] g2[q] != 0 by {}
    if c > g0[k] + 1 {
        lemma_rank_grows(p, g0, k, g2, k + 1, k);
    } else if k + 1 < 81 && p[k + 1] == 0 {
        lemma_rank_grows(p, g0, k, g2, k + 1, k + 1);
    } else {
        assert(rank(p, g0, k) =~= rank(p, g2, k + 1));
    }
}

/// When no digit above the last try fits open cell `k`, no fill agrees with
/// the grid before `k`.
proof fn lemma_exhausted(st0: InProgress, st1: InProgress, p: Seq<u8>, k: int)
    requires
        searching(st0, p, k),
        0 <= k < 81,
        p[k] == 0,
        st1.tracks(p),
        st1.puzzle@ == st0.puzzle@.update(k, 0),
        forall|e: u8| st0.puzzle@[k] < e <= 9 ==> #[trigger] peer_count(st1.puzzle@, k, e, 81) > 0,
    ensures
        forall|t: Seq<u8>| #[trigger] is_open_fill(p, t) ==> !agree_below(t, st1.puzzle@, k),
{
    let g0 = st0.puzzle@;
    let g1 = st1.puzzle@;
    assert forall|t: Seq<u8>| #[trigger] is_open_fill(p, t) implies !agree_below(t, g1, k) by {
        if agree_below(t, g1, k) {
            assert(not_passed(p, g0, k, t));
            assert(agree_below(t, g0, k));
            let e = t[k];
            lemma_blocked(p, g1, k, e, t);
        }
    }
}

/// Backing up over a given cell keeps "no fill agrees with the grid before
/// the cursor".
proof fn lemma_back_over_given(p: Seq<u8>, g: Seq<u8>, m: int)
    requires
        p.len() == 81,
        g.len() == 81,
        0 <= m < 81,
        p[m] != 0,
        g[m] == p[m],
        forall|t: Seq<u8>| #[trigger] is_open_fill(p, t) ==> !agree_below(t, g, m + 1),
    ensures
        forall|t: Seq<u8>| #[trigger] is_open_fill(p, t) ==> !agree_below(t, g, m),
{
    assert forall|t: Seq<u8>| #[trigger] is_open_fill(p, t) implies !agree_below(t, g, m) by {
        if agree_below(t, g, m) {
            assert(agree_below(t, g, m + 1));
        }
    }
}

/// Backing up from exhausted cell `k` to the open cell `m` before it resumes
/// the search at `m`, with a larger rank.
proof fn lemma_resume(st0: InProgress, st1: InProgress, p: Seq<u8>, k: int, m: int)
    requires
        searching(st0, p, k),
        0 <= m < k < 81,
        p[k] == 0,
        p[m] == 0,
        st1.tracks(p),
        placed_clear(p, st1.puzzle@),
        st1.puzzle@ == st0.puzzle@.update(k, 0),
        forall|q: int| m < q < k ==> #[trigger] p[q] != 0,
        forall|t: Seq<u8>| #[trigger] is_open_fill(p, t) ==> !agree_below(t, st1.puzzle@, m + 1),
    ensures
        searching(st1, p, m),
        base11(rank(p, st0.puzzle@, k), 81) < base11(rank(p, st1.puzzle@, m), 81),
{
    let g0 = st0.puzzle@;
    let g1 = st1.puzzle@;
    assert forall|t: Seq<u8>| #[trigger] is_open_fill(p, t) implies not_passed(p, g1, m, t) by {
        assert(not_passed(p, g0, k, t));
        assert forall|j: int| 0 <= j < m && #[trigger] agree_below(t, g1, j) implies t[j] >= g1[j] by {
            assert(agree_below(t, g0, j));
        }
        if agree_below(t, g1, m) {
            assert(agree_below(t, g0, m));
            if t[m] == g1[m] {
                assert(agree_below(t, g1, m + 1));
            }
        }
    }
    lemma_rank_grows(p, g0, k, g1, m, m);
}

/// What solving puzzle `p` gives: the fill that comes first in row-major
/// lexicographic order, or `None` when `p` has no fill.
pub open spec fn solve_outcome(p: Seq<u8>, r: Option<Solution>) -> bool {
    match r {
        Some(s) => is_first_fill(p, s@),
        None => forall|t: Seq<u8>| !is_fill(p, t),
    }
}

/// The 9×9 grid whose cells in row-major order are `g`.
fn to_grid(g: &Vec<u8>) -> (r: [[u8; 9]; 9])
    requires
        g@.len() == 81,
    ensures
        flatten(r) == g@,
{
    let mut grid = [[0u8; 9]; 9];
    let mut i: usize = 0;
    while i < 9
        invariant
            i <= 9,
            g@.len() == 81,
            forall|r: int, c: int| 0 <= r < i && 0 <= c < 9 ==> #[trigger] grid@[r]@[c] == g@[cell_at(r, c)],
        decreases 9 - i,
    {
        let mut row = [0u8; 9];
        let mut j: usize = 0;
        while j < 9
            invariant
                i < 9,
                j <= 9,
                g@.len() == 81,
                forall|c: int| 0 <= c < j ==> #[trigger] row@[c] == g@[cell_at(i as int, c)],
            decreases 9 - j,
        {
            row[j] = g[i * 9 + j];
            j = j + 1;
        }
        grid[i] = row;
        i = i + 1;
    }
    assert forall|k: int| 0 <= k < 81 implies flatten(grid)[k] == g@[k] by {
        lemma_cell_coords(k);
    }
    assert(flatten(grid) =~= g@);
    grid
}

impl Puzzle {
    /// Solve the puzzle. Givens that clash with a peer give `None` at once;
    /// otherwise a backtracking search over the cells in row-major order,
    /// trying digits in ascending order, finds the fill that comes first in
    /// that order, or `None` when the puzzle has no fill.
    #[verifier::rlimit(40)]
    pub fn solve(&self) -> (r: Option<Solution>)
        ensures
            solve_outcome(self@, r),
    {
        let ghost p = self@;
        let mut scratch = InProgress::new(self);
        if givens_clash(&scratch.puzzle) {
            proof {
                assert forall|t: Seq<u8>| !is_fill(p, t) by {
                    lemma_clash_no_fill(p, t);
                }
            }
            return None;
        }
        let mut coords = Coords::new();
        proof {
            assert forall|t: Seq<u8>| #[trigger] is_open_fill(p, t) implies not_passed(p, scratch.puzzle@, 0, t) by {
                if p[0] == 0 {
                    assert(t[0] >= 1);
                }
            }
            lemma_rank_digits(p, scratch.puzzle@, coords.pos());
        }
        loop
            invariant_except_break
                p == self@,
                givens_consistent(p),
                coords.wf(),
                searching(scratch, p, coords.pos()),
                0 <= base11(rank(p, scratch.puzzle@, coords.pos()), 81) < pow11(81),
            ensures
                p == self@,
                givens_consistent(p),
                coords.pos() == 81,
                searching(scratch, p, 81),
            decreases pow11(81) - base11(rank(p, scratch.puzzle@, coords.pos()), 81), 81 - coords.pos(),
        {
            let ghost st0 = scratch;
            let ghost k0 = coords.pos();
            match coords.get() {
                None => {
                    break;
                },
                Some((i, j)) => {
                    let k = i * 9 + j;
                    match scratch.obstructions[k] {
                        None => {
                            proof {
                                lemma_given_step(scratch, p, k0);
                            }
                            coords.advance();
                        },
                        Some(o) => {
                            let mut next_test = scratch.puzzle[k];
                            if next_test != 0 {
                                proof {
                                    assert forall|q: int|
                                        0 <= q < 81 && is_peer(cell_at(i as int, j as int), q) && scratch.is_open(q)
                                        implies scratch.count_at(q, next_test as int) > 0 by {
                                        lemma_peer_count_positive(st0.puzzle@, q, next_test, 81, k as int);
                                    }
                                }
                                scratch.remove_obstruction(i, j);
                                let ghost mid = scratch;
                                scratch.puzzle[k] = 0;
                                proof {
                                    assert forall|q: int, d: int| 0 <= q < 81 && 1 <= d <= 9 implies #[trigger] scratch.count_at(q, d)
                                        == mid.count_at(q, d) by {}
                                    assert(scratch.count_at(k as int, 1) == mid.count_at(k as int, 1));
                                    lemma_retract(st0, scratch, p, k as int);
                                }
                            }
                            let ghost st1 = scratch;
                            let ghost g1 = scratch.puzzle@;
                            proof {
                                if st0.puzzle@[k as int] == 0 {
                                    assert(g1 =~= st0.puzzle@.update(k as int, 0));
                                }
                                assert forall|d: int| 1 <= d <= 9 implies o.count(d) == peer_count(g1, k as int, d as u8, 81) by {
                                    assert(st0.count_at(k as int, d) == o.count(d));
                                    assert(scratch.count_at(k as int, d) == st0.count_at(k as int, d));
                                }
                            }
                            next_test = next_test + 1;
                            while next_test <= 9 && o.for_number(next_test) != 0
                                invariant
                                    k < 81,
                                    st0.puzzle@.len() == 81,
                                    st0.puzzle@[k as int] < next_test <= 10,
                                    1 <= next_test,
                                    forall|d: int| 1 <= d <= 9 ==> o.count(d) == peer_count(g1, k as int, d as u8, 81),
                                    forall|e: u8|
                                        st0.puzzle@[k as int] < e < next_test ==> #[trigger] peer_count(g1, k as int, e, 81) > 0,
                                decreases 10 - next_test,
                            {
                                next_test = next_test + 1;
                            }
                            if next_test > 9 {
                                proof {
                                    lemma_exhausted(st0, st1, p, k as int);
                                }
                                // Backtrack
                                let mut resumed = false;
                                loop
                                    invariant_except_break
                                        !resumed,
                                        searching(st0, p, k0),
                                        k0 == k,
                                        k0 < 81,
                                        p[k0] == 0,
                                        st1.tracks(p),
                                        placed_clear(p, g1),
                                        g1 == st1.puzzle@,
                                        g1 == st0.puzzle@.update(k0, 0),
                                        coords.wf(),
                                        coords.0 is Some,
                                        0 <= coords.pos() <= k0,
                                        scratch == st1,
                                        forall|q: int| coords.pos() < q < k0 ==> #[trigger] p[q] != 0,
                                        coords.pos() == k0 || p[coords.pos()] != 0,
                                        forall|t: Seq<u8>| #[trigger] is_open_fill(p, t) ==> !agree_below(t, g1, coords.pos()),
                                    ensures
                                        resumed ==> coords.wf() && searching(scratch, p, coords.pos())
                                            && base11(rank(p, st0.puzzle@, k0), 81) < base11(rank(p, scratch.puzzle@, coords.pos()), 81),
                                        !resumed ==> forall|t: Seq<u8>| !is_open_fill(p, t),
                                    decreases coords.pos(),
                                {
                                    match coords.retreat() {
                                        None => {
                                            proof {
                                                assert forall|t: Seq<u8>| !is_open_fill(p, t) by {
                                                    if is_open_fill(p, t) {
                                                        assert(agree_below(t, g1, 0));
                                                    }
                                                }
                                            }
                                            break;
                                        },
                                        Some((i2, j2)) => {
                                            let k2 = i2 * 9 + j2;
                                            match scratch.obstructions[k2] {
                                                Some(o2) => {
                                                    proof {
                                                        let v = g1[k2 as int];
                                                        assert(p[k2 as int] == 0);
                                                        assert(st0.puzzle@[k2 as int] != 0);
                                                        assert(st1.count_at(k2 as int, v as int) == peer_count(g1, k2 as int, v, 81));
                                                        assert forall|j: int| 0 <= j < 81 implies !(is_peer(k2 as int, j) && #[trigger] g1[j] == v) by {
                                                            if is_peer(k2 as int, j) {
                                                                assert(g1[k2 as int] != g1[j]);
                                                            }
                                                        }
                                                        lemma_peer_count_zero(g1, k2 as int, v, 81);
                                                        assert(o2.count(v as int) == 0);
                                                    }
                                                    if !o2.is_full() {
                                                        proof {
                                                            lemma_resume(st0, st1, p, k0, k2 as int);
                                                        }
                                                        resumed = true;
                                                        break;
                                                    }
                                                    scratch.remove_obstruction(i2, j2);
                                                    scratch.puzzle[k2] = 0;
                                                },
                                                None => {
                                                    proof {
                                                        lemma_back_over_given(p, g1, k2 as int);
                                                    }
                                                },
                                            }
                                        },
                                    }
                                }
                                if !resumed {
                                    proof {
                                        assert forall|t: Seq<u8>| !is_fill(p, t) by {
                                            if is_fill(p, t) {
                                                lemma_fill_is_open_fill(p, t);
                                            }
                                        }
                                    }
                                    return None;
                                }
                            } else {
                                scratch.puzzle[k] = next_test;
                                proof {
                                    assert forall|q: int|
                                        0 <= q < 81 && is_peer(cell_at(i as int, j as int), q) && scratch.is_open(q)
                                        implies scratch.count_at(q, next_test as int) < 255 by {
                                        assert(scratch.count_at(q, next_test as int) == st1.count_at(q, next_test as int));
                                        lemma_peer_count_bound(g1, q, next_test, 81);
                                    }
                                }
                                scratch.add_obstruction(i, j);
                                proof {
                                    lemma_place(st1, scratch, p, k as int, next_test);
                                    lemma_place_step(st0, st1, scratch, p, k as int, next_test);
                                }
                                coords.advance();
                            }
                        },
                    }
                },
            }
            proof {
                lemma_rank_digits(p, scratch.puzzle@, coords.pos());
            }
        }
        proof {
            let g = scratch.puzzle@;
            assert(is_first_open_fill(p, g));
            lemma_open_fill_is_fill(p, g);
            assert forall|t: Seq<u8>| is_fill(p, t) implies !lex_lt(t, g) by {
                lemma_fill_is_open_fill(p, t);
            }
        }
        Some(Solution(to_grid(&scratch.puzzle)))
    }
}

/// Whether the cells at `a` and `b` are peers.
fn peers(a: usize, b: usize) -> (r: bool)
    requires
        a < 81,
        b < 81,
    ensures
        r == is_peer(a as int, b as int),
{
    a != b && (a / 9 == b / 9 || a % 9 == b % 9 || (a / 9 / 3 == b / 9 / 3 && a % 9 / 3 == b % 9 / 3))
}

/// Whether two given (nonzero) cells of `g` that are peers hold the same digit.
fn givens_clash(g: &Vec<u8>) -> (r: bool)
    requires
        g@.len() == 81,
    ensures
        r == !givens_consistent(g@),
{
    let mut a: usize = 0;
    while a < 81
        invariant
            a <= 81,
            g@.len() == 81,
            forall|k: int, j: int|
                0 <= k < a && 0 <= j < 81 && g@[k] != 0 && g@[j] != 0 && #[trigger] is_peer(k, j)
                    ==> g@[k] != g@[j],
        decreases 81 - a,
    {
        let mut b: usize = 0;
        while b < 81
            invariant
                a < 81,
                b <= 81,
                g@.len() == 81,
                forall|k: int, j: int|
                    0 <= k < a && 0 <= j < 81 && g@[k] != 0 && g@[j] != 0 && #[trigger] is_peer(k, j)
                        ==> g@[k] != g@[j],
                forall|j: int|
                    0 <= j < b && g@[a as int] != 0 && g@[j] != 0 && #[trigger] is_peer(a as int, j)
                        ==> g@[a as int] != g@[j],
            decreases 81 - b,
        {
            if g[a] != 0 && g[a] == g[b] && peers(a, b) {
                return true;
            }
            b = b + 1;
        }
        a = a + 1;
    }
    false
}

/// Position of the box-only peer `box_cell(y, x, a, b)`.
fn box_peer(y: usize, x: usize, a: usize, b: usize) -> (r: usize)
    requires
        y < 9,
        x < 9,
        1 <= a <= 2,
        1 <= b <= 2,
    ensures
        r == box_cell(y as int, x as int, a as int, b as int),
        r < 81,
{
    proof {
        lemma_band_step(y as int);
        lemma_band_step(x as int);
    }
    let t1 = y % 3;
    let t2 = x % 3;
    let x0 = x - t2;
    let y0 = y - t1;
    (y0 + (t1 + a) % 3) * 9 + x0 + (t2 + b) % 3
}

} // verus!
