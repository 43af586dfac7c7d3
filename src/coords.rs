//! A cursor over the cells in row-major order.
use vstd::prelude::*;

use crate::grid::cell_at;

verus! {

/// The cell the search stands on, as row and column, or `None` once it has
/// moved past the last cell.
pub struct Coords(pub Option<(usize, usize)>);

impl Coords {
    pub open spec fn wf(self) -> bool {
        match self.0 {
            Some((i, j)) => i < 9 && j < 9,
            None => true,
        }
    }

    /// Row-major position of the cursor; 81 past the last cell.
    pub open spec fn pos(self) -> int {
        match self.0 {
            Some((i, j)) => cell_at(i as int, j as int),
            None => 81,
        }
    }

    pub fn new() -> (r: Coords)
        ensures
            r.wf(),
            r.0 == Some((0usize, 0usize)),
            r.pos() == 0,
    {
        Coords(Some((0, 0)))
    }

    pub fn get(&self) -> (r: Option<(usize, usize)>)
        ensures
            r == self.0,
    {
        self.0
    }

    /// Step to the next cell, or past the end after the last one; once past
    /// the end, stay there.
    pub fn advance(&mut self)
        requires
            old(self).wf(),
        ensures
            final(self).wf(),
            old(self).0 is Some ==> final(self).pos() == old(self).pos() + 1,
            old(self).0 is None ==> final(self).0 is None,
            final(self).0 is None <==> final(self).pos() == 81,
    {
        if let Some((i0, j0)) = self.0 {
            let mut i = i0;
            let mut j = j0 + 1;
            if j >= 9 {
                i = i + 1;
                j = 0;
            }
            if i >= 9 {
                self.0 = None;
            } else {
                self.0 = Some((i, j));
            }
        }
    }

    /// Step back to the previous cell and return it; at the first cell, or
    /// once past the end, stay and return `None`.
    pub fn retreat(&mut self) -> (r: Option<(usize, usize)>)
        requires
            old(self).wf(),
        ensures
            final(self).wf(),
            old(self).0 is None ==> r is None && final(self).0 == old(self).0,
            old(self).0 is Some ==> final(self).0 is Some,
            old(self).0 is Some && old(self).pos() == 0 ==> r is None && final(self).0 == old(self).0,
            old(self).0 is Some && old(self).pos() > 0 ==> r == final(self).0 && final(self).pos()
                == old(self).pos() - 1,
    {
        let (i0, j0) = match self.0 {
            Some(c) => c,
            None => {
                return None;
            },
        };
        let mut i = i0;
        let j;
        if j0 >= 1 {
            j = j0 - 1;
        } else {
            if i0 >= 1 {
                i = i0 - 1;
            } else {
                return None;
            }
            j = 8;
        }
        self.0 = Some((i, j));
        Some((i, j))
    }
}

} // verus!
