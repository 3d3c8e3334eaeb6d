//! Grid model and constraint engine.
//!
//! A `Sudoku` owns a `side x side` grid of optional values, where
//! `side = n * n` and `n` is the block size (conventionally 3). The engine
//! validates a placement against the three sudoku constraints (region, row,
//! column) only when a write is attempted; already-placed values are never
//! re-audited.

use vstd::prelude::*;

verus! {

/// The grid: block size `n` and a row-major `side x side` array of cells,
/// each either empty (`None`) or holding a value.
#[derive(Debug)]
pub struct Sudoku {
    pub n: u32,
    pub grid: Vec<Vec<Option<u32>>>,
}

/// Why a placement was rejected. `RegionHasSameNumber` and
/// `GroupHasSameNumber` carry the coordinates of the first conflicting cell;
/// a group is a row or a column (callers distinguish the two by comparing the
/// returned coordinates against the queried cell).
#[derive(Debug, Clone, Copy, PartialEq, Eq, Structural)]
pub enum ValidationError {
    OutOfGrid,
    RegionHasSameNumber(u32, u32),
    GroupHasSameNumber(u32, u32),
    InvalidNum,
}

impl Sudoku {
    /// The width and height of the grid.
    pub open spec fn side(self) -> int {
        self.n * self.n
    }

    /// Structural well-formedness: the block size is small enough that the
    /// side fits in a `u32`, and the grid is exactly `side x side`.
    pub open spec fn wf(self) -> bool {
        &&& self.n <= 0xFFFF
        &&& self.grid@.len() == self.side()
        &&& forall|y: int|
            0 <= y < self.side() ==> (#[trigger] self.grid@[y])@.len() == self.side()
    }

    /// The cell at column `x`, row `y`.
    pub open spec fn cell(self, x: int, y: int) -> Option<u32> {
        self.grid@[y]@[x]
    }

    /// Whether `(x, y)` lies inside the grid.
    pub open spec fn in_grid(self, x: int, y: int) -> bool {
        0 <= x < self.side() && 0 <= y < self.side()
    }

    /// The side length as a machine integer.
    pub fn side_len(&self) -> (s: u32)
        requires
            self.n <= 0xFFFF,
        ensures
            s == self.side(),
    {
        proof {
            assert(self.n * self.n <= 0xFFFF * 0xFFFF) by (nonlinear_arith)
                requires self.n <= 0xFFFF;
        }
        self.n * self.n
    }

    /// Column of the top-left corner of the region containing column `x`.
    pub open spec fn corner_x(self, x: int) -> int {
        (x / self.n as int) * self.n
    }

    /// Row of the top-left corner of the region containing row `y`.
    pub open spec fn corner_y(self, y: int) -> int {
        (y / self.n as int) * self.n
    }

    /// Whether `(i, j)` lies in the `n x n` region containing `(x, y)`.
    pub open spec fn in_region_of(self, x: int, y: int, i: int, j: int) -> bool {
        &&& self.corner_x(x) <= i < self.corner_x(x) + self.n
        &&& self.corner_y(y) <= j < self.corner_y(y) + self.n
    }

    /// Placing `num` at `(x, y)` conflicts with the cell `(i, j)` of the same
    /// region: that cell is another one and already holds `num`.
    pub open spec fn region_conflict(self, x: int, y: int, num: u32, i: int, j: int) -> bool {
        &&& self.in_region_of(x, y, i, j)
        &&& !(i == x && j == y)
        &&& self.cell(i, j) == Some(num)
    }

    pub open spec fn has_region_conflict(self, x: int, y: int, num: u32) -> bool {
        exists|i: int, j: int| self.region_conflict(x, y, num, i, j)
    }

    /// Placing `num` at `(x, y)` conflicts with the cell in column `i` of row `y`.
    pub open spec fn row_conflict(self, x: int, y: int, num: u32, i: int) -> bool {
        &&& 0 <= i < self.side()
        &&& i != x
        &&& self.cell(i, y) == Some(num)
    }

    pub open spec fn has_row_conflict(self, x: int, y: int, num: u32) -> bool {
        exists|i: int| self.row_conflict(x, y, num, i)
    }

    /// Placing `num` at `(x, y)` conflicts with the cell in row `j` of column `x`.
    pub open spec fn col_conflict(self, x: int, y: int, num: u32, j: int) -> bool {
        &&& 0 <= j < self.side()
        &&& j != y
        &&& self.cell(x, j) == Some(num)
    }

    pub open spec fn has_col_conflict(self, x: int, y: int, num: u32) -> bool {
        exists|j: int| self.col_conflict(x, y, num, j)
    }

    /// Placing `num` at `(x, y)` is legal against the current grid contents:
    /// the coordinates are inside the grid, the value is in `[1, side]`, and
    /// no other cell of the region, the row, or the column holds `num`.
    pub open spec fn valid_placement(self, x: int, y: int, num: u32) -> bool {
        &&& self.in_grid(x, y)
        &&& 1 <= num <= self.side()
        &&& !self.has_region_conflict(x, y, num)
        &&& !self.has_row_conflict(x, y, num)
        &&& !self.has_col_conflict(x, y, num)
    }

    /// `(cx, cy)` is the first region conflict in row-major scan order
    /// within the region.
    pub open spec fn first_region_conflict(self, x: int, y: int, num: u32, cx: int, cy: int) -> bool {
        &&& self.region_conflict(x, y, num, cx, cy)
        &&& forall|i: int, j: int|
            self.region_conflict(x, y, num, i, j) ==> (cy < j || (cy == j && cx <= i))
    }

    /// `cx` is the first conflicting column of row `y`, in ascending order.
    pub open spec fn first_row_conflict(self, x: int, y: int, num: u32, cx: int) -> bool {
        &&& self.row_conflict(x, y, num, cx)
        &&& forall|i: int| self.row_conflict(x, y, num, i) ==> cx <= i
    }

    /// `cy` is the first conflicting row of column `x`, in ascending order.
    pub open spec fn first_col_conflict(self, x: int, y: int, num: u32, cy: int) -> bool {
        &&& self.col_conflict(x, y, num, cy)
        &&& forall|j: int| self.col_conflict(x, y, num, j) ==> cy <= j
    }

    /// Exactly which error a rejected placement of `num` at `(x, y)` reports:
    /// the checks run in the order out-of-grid, value range, region, row,
    /// column, and a conflict error names the first conflicting cell that the
    /// failing check scans.
    pub open spec fn error_for(self, x: int, y: int, num: u32, e: ValidationError) -> bool {
        match e {
            ValidationError::OutOfGrid => !self.in_grid(x, y),
            ValidationError::InvalidNum => self.in_grid(x, y) && !(1 <= num <= self.side()),
            ValidationError::RegionHasSameNumber(cx, cy) => {
                &&& self.in_grid(x, y)
                &&& 1 <= num <= self.side()
                &&& self.first_region_conflict(x, y, num, cx as int, cy as int)
            },
            ValidationError::GroupHasSameNumber(cx, cy) => {
                &&& self.in_grid(x, y)
                &&& 1 <= num <= self.side()
                &&& !self.has_region_conflict(x, y, num)
                &&& ((cy as int == y && self.first_row_conflict(x, y, num, cx as int))
                    || (cx as int == x && cy as int != y && !self.has_row_conflict(x, y, num)
                        && self.first_col_conflict(x, y, num, cy as int)))
            },
        }
    }

    /// Create an empty grid of side `n * n`.
    pub fn new(n: u32) -> (r: Self)
        requires
            1 <= n <= 0xFFFF,
        ensures
            r.wf(),
            r.n == n,
            forall|x: int, y: int| r.in_grid(x, y) ==> (#[trigger] r.cell(x, y)) is None,
    {
        proof {
            assert(n * n <= 0xFFFF * 0xFFFF) by (nonlinear_arith)
                requires n <= 0xFFFF;
        }
        let side = n * n;
        let mut grid: Vec<Vec<Option<u32>>> = Vec::new();
        while grid.len() < side as usize
            invariant
                side == n * n,
                grid@.len() <= side,
                forall|y: int|
                    0 <= y < grid@.len() ==> (#[trigger] grid@[y])@.len() == side,
                forall|y: int, x: int|
                    0 <= y < grid@.len() && 0 <= x < side
                        ==> (#[trigger] grid@[y]@[x]) is None,
            decreases side - grid.len(),
        {
            let mut row: Vec<Option<u32>> = Vec::new();
            while row.len() < side as usize
                invariant
                    row@.len() <= side,
                    forall|x: int| 0 <= x < row@.len() ==> (#[trigger] row@[x]) is None,
                decreases side - row.len(),
            {
                row.push(None);
            }
            grid.push(row);
        }
        Sudoku { n, grid }
    }

    /// Read the cell at `coords = (x, y)`, or report `OutOfGrid` when either
    /// coordinate falls outside the grid.
    pub fn get(&self, coords: (u32, u32)) -> (r: Result<Option<u32>, ValidationError>)
        requires
            self.wf(),
        ensures
            match r {
                Ok(v) => self.in_grid(coords.0 as int, coords.1 as int)
                    && v == self.cell(coords.0 as int, coords.1 as int),
                Err(e) => e == ValidationError::OutOfGrid
                    && !self.in_grid(coords.0 as int, coords.1 as int),
            },
    {
        let side = self.side_len();
        let (x, y) = coords;
        if x >= side || y >= side {
            return Err(ValidationError::OutOfGrid);
        }
        Ok(self.grid[y as usize][x as usize])
    }

    /// Check whether placing `num` at `coords` would be legal, without
    /// writing anything. Success is reported iff the placement is legal; a
    /// failure names the first conflicting cell that the failing check scans
    /// (region first, then row, then column).
    pub fn is_valid(&self, coords: (u32, u32), num: u32) -> (r: Result<bool, ValidationError>)
        requires
            self.wf(),
        ensures
            r is Ok <==> self.valid_placement(coords.0 as int, coords.1 as int, num),
            r matches Ok(b) ==> b,
            r matches Err(e) ==> self.error_for(coords.0 as int, coords.1 as int, num, e),
    {
        let (x, y) = coords;
        let side = self.side_len();

        if x >= side || y >= side {
            return Err(ValidationError::OutOfGrid);
        }
        if num < 1 || num > side {
            return Err(ValidationError::InvalidNum);
        }

        proof {
            assert(self.n >= 1) by (nonlinear_arith)
                requires x < self.n * self.n;
            assert((x as int / self.n as int) * self.n + self.n <= self.n * self.n)
                by (nonlinear_arith)
                requires self.n >= 1, x < self.n * self.n;
            assert((y as int / self.n as int) * self.n + self.n <= self.n * self.n)
                by (nonlinear_arith)
                requires self.n >= 1, y < self.n * self.n;
        }

        // The top-left corner of the region: dividing then multiplying by n
        // floors the coordinate to a multiple of n.
        let corner_x = (x / self.n) * self.n;
        let corner_y = (y / self.n) * self.n;

        // Region check, scanning the region in row-major order.
        let mut j = corner_y;
        while j < corner_y + self.n
            invariant
                self.wf(),
                self.n >= 1,
                side == self.side(),
                coords == (x, y),
                x < side && y < side,
                1 <= num <= side,
                corner_x == self.corner_x(x as int),
                corner_y == self.corner_y(y as int),
                corner_x + self.n <= side,
                corner_y + self.n <= side,
                corner_y <= j <= corner_y + self.n,
                forall|i2: int, j2: int|
                    self.region_conflict(x as int, y as int, num, i2, j2) ==> j2 >= j,
            decreases corner_y + self.n - j,
        {
            let mut i = corner_x;
            while i < corner_x + self.n
                invariant
                    self.wf(),
                    self.n >= 1,
                    side == self.side(),
                    coords == (x, y),
                    x < side && y < side,
                    1 <= num <= side,
                    corner_x == self.corner_x(x as int),
                    corner_y == self.corner_y(y as int),
                    corner_x + self.n <= side,
                    corner_y + self.n <= side,
                    corner_y <= j < corner_y + self.n,
                    corner_x <= i <= corner_x + self.n,
                    forall|i2: int, j2: int|
                        self.region_conflict(x as int, y as int, num, i2, j2)
                            ==> (j2 > j || (j2 == j && i2 >= i)),
                decreases corner_x + self.n - i,
            {
                // The queried cell itself may already hold the value; it is skipped.
                if !(i == x && j == y) {
                    match self.grid[j as usize][i as usize] {
                        Some(v) => {
                            if v == num {
                                proof {
                                    assert(self.region_conflict(
                                        x as int, y as int, num, i as int, j as int));
                                }
                                return Err(ValidationError::RegionHasSameNumber(i, j));
                            }
                        },
                        None => {},
                    }
                }
                i = i + 1;
            }
            j = j + 1;
        }

        // Row check, ascending column order.
        let mut i = 0u32;
        while i < side
            invariant
                self.wf(),
                side == self.side(),
                coords == (x, y),
                x < side && y < side,
                1 <= num <= side,
                !self.has_region_conflict(x as int, y as int, num),
                i <= side,
                forall|i2: int| self.row_conflict(x as int, y as int, num, i2) ==> i2 >= i,
            decreases side - i,
        {
            if i != x {
                match self.grid[y as usize][i as usize] {
                    Some(v) => {
                        if v == num {
                            proof {
                                assert(self.row_conflict(x as int, y as int, num, i as int));
                            }
                            return Err(ValidationError::GroupHasSameNumber(i, y));
                        }
                    },
                    None => {},
                }
            }
            i = i + 1;
        }

        // Column check, ascending row order.
        let mut j = 0u32;
        while j < side
            invariant
                self.wf(),
                side == self.side(),
                coords == (x, y),
                x < side && y < side,
                1 <= num <= side,
                j <= side,
                !self.has_region_conflict(x as int, y as int, num),
                !self.has_row_conflict(x as int, y as int, num),
                forall|j2: int| self.col_conflict(x as int, y as int, num, j2) ==> j2 >= j,
            decreases side - j,
        {
            if j != y {
                match self.grid[j as usize][x as usize] {
                    Some(v) => {
                        if v == num {
                            proof {
                                assert(self.col_conflict(x as int, y as int, num, j as int));
                            }
                            return Err(ValidationError::GroupHasSameNumber(x, j));
                        }
                    },
                    None => {},
                }
            }
            j = j + 1;
        }

        Ok(true)
    }

    /// Place `num` at `coords` if the placement is legal. Succeeds iff
    /// `is_valid` succeeds; on success exactly that one cell now holds `num`,
    /// on failure the grid is unmodified and the error is the one `is_valid`
    /// reports.
    pub fn set(&mut self, coords: (u32, u32), num: u32) -> (r: Result<(), ValidationError>)
        requires
            old(self).wf(),
        ensures
            final(self).wf(),
            final(self).n == old(self).n,
            r is Ok <==> old(self).valid_placement(coords.0 as int, coords.1 as int, num),
            r is Ok ==> final(self).cell(coords.0 as int, coords.1 as int) == Some(num),
            forall|i: int, j: int|
                old(self).in_grid(i, j) && !(i == coords.0 && j == coords.1)
                    ==> (#[trigger] final(self).cell(i, j)) == old(self).cell(i, j),
            r is Err ==> *final(self) == *old(self),
            r matches Err(e) ==> old(self).error_for(coords.0 as int, coords.1 as int, num, e),
    {
        match self.is_valid(coords, num) {
            Err(e) => Err(e),
            Ok(_) => {
                let (x, y) = coords;
                let row = &mut self.grid[y as usize];
                row.set(x as usize, Some(num));
                Ok(())
            },
        }
    }

    /// Clear the cell at `coords` to empty. Never fails and checks no
    /// constraint: removing a value cannot create a conflict. Out-of-grid
    /// coordinates address no cell, so the grid is left as it is.
    pub fn unset(&mut self, coords: (u32, u32))
        requires
            old(self).wf(),
        ensures
            final(self).wf(),
            final(self).n == old(self).n,
            old(self).in_grid(coords.0 as int, coords.1 as int)
                ==> final(self).cell(coords.0 as int, coords.1 as int) is None,
            forall|i: int, j: int|
                old(self).in_grid(i, j) && !(i == coords.0 && j == coords.1)
                    ==> (#[trigger] final(self).cell(i, j)) == old(self).cell(i, j),
            !old(self).in_grid(coords.0 as int, coords.1 as int) ==> *final(self) == *old(self),
    {
        let side = self.side_len();
        let (x, y) = coords;
        if x < side && y < side {
            let row = &mut self.grid[y as usize];
            row.set(x as usize, None);
        }
    }

    /// The candidate values ("entropy") of the cell at `coords`: `None` when
    /// the cell is filled (or `coords` addresses no cell), else the ascending
    /// list of exactly those values in `[1, side]` whose placement `is_valid`
    /// accepts there. The list may be empty: the cell is then unfillable
    /// under the current contents.
    pub fn get_entropy(&self, coords: (u32, u32)) -> (r: Option<Vec<u32>>)
        requires
            self.wf(),
        ensures
            r is None <==> !self.in_grid(coords.0 as int, coords.1 as int)
                || self.cell(coords.0 as int, coords.1 as int) is Some,
            r matches Some(vs) ==> {
                &&& forall|k: int|
                    0 <= k < vs@.len()
                        ==> self.valid_placement(coords.0 as int, coords.1 as int, #[trigger] vs@[k])
                &&& forall|v: u32|
                    1 <= v <= self.side()
                        && self.valid_placement(coords.0 as int, coords.1 as int, v)
                        ==> vs@.contains(v)
                &&& forall|k1: int, k2: int| 0 <= k1 < k2 < vs@.len() ==> vs@[k1] < vs@[k2]
            },
    {
        match self.get(coords) {
            Err(_) => return None,
            Ok(Some(_)) => return None,
            Ok(None) => {},
        }

        let side = self.side_len();
        proof {
            assert(self.n * self.n <= 0xFFFF * 0xFFFF) by (nonlinear_arith)
                requires self.n <= 0xFFFF;
        }
        let mut allowed: Vec<u32> = Vec::new();
        let mut v: u32 = 1;
        while v <= side
            invariant
                self.wf(),
                side == self.side(),
                side <= 0xFFFE0001,
                1 <= v <= side + 1,
                forall|k: int|
                    0 <= k < allowed@.len()
                        ==> self.valid_placement(coords.0 as int, coords.1 as int,
                            #[trigger] allowed@[k]),
                forall|k: int| 0 <= k < allowed@.len() ==> #[trigger] allowed@[k] < v,
                forall|w: u32|
                    1 <= w < v && self.valid_placement(coords.0 as int, coords.1 as int, w)
                        ==> allowed@.contains(w),
                forall|k1: int, k2: int| 0 <= k1 < k2 < allowed@.len() ==> allowed@[k1] < allowed@[k2],
            decreases side + 1 - v,
        {
            let legal = match self.is_valid(coords, v) {
                Ok(_) => true,
                Err(_) => false,
            };
            if legal {
                let ghost pre = allowed@;
                allowed.push(v);
                proof {
                    assert forall|w: u32|
                        1 <= w < v + 1
                            && self.valid_placement(coords.0 as int, coords.1 as int, w)
                        implies allowed@.contains(w) by {
                        if w == v {
                            assert(allowed@[pre.len() as int] == v);
                        } else {
                            assert(pre.contains(w));
                            let k = choose|k: int| 0 <= k < pre.len() && pre[k] == w;
                            assert(allowed@[k] == w);
                        }
                    }
                }
            }
            v = v + 1;
        }
        Some(allowed)
    }
}

} // verus!
