//! The grid engine: flat row-major storage, growth, placement with
//! anchor/shadow bookkeeping, value access, traversal, and transforms.

use vstd::prelude::*;

use crate::cell::Cell;
use crate::cell::Error;

verus! {

/// A rectangular grid of `num_rows x num_cols` cells stored row-major in a
/// single flat sequence whose length always equals `num_rows * num_cols`.
#[derive(Clone, Debug)]
pub struct Table<T> {
    num_cols: u32,
    num_rows: u32,
    cells: Vec<Cell<T>>,
}

/// Whether `(r, c)` lies inside the rectangle anchored at `(row, col)` that
/// spans `rowspan` rows and `colspan` columns.
pub open spec fn in_rect(r: int, c: int, row: int, col: int, rowspan: int, colspan: int) -> bool {
    row <= r < row + rowspan && col <= c < col + colspan
}

/// The dimension that results from growing `cur` to hold `req`: growth never
/// shrinks, so the larger of the two.
pub open spec fn grown_dim(cur: int, req: int) -> int {
    if req > cur {
        req
    } else {
        cur
    }
}

/// Whether `(r, c)` lies inside the span rectangle of the occupant (if any)
/// recorded at `(row, col)` of `t`.
pub open spec fn in_old_span<T>(t: Table<T>, row: int, col: int, r: int, c: int) -> bool {
    match t.cell_or_empty(row, col) {
        Cell::Occupied { value: _, colspan, rowspan } => in_rect(
            r,
            c,
            row,
            col,
            rowspan as int,
            colspan as int,
        ),
        _ => false,
    }
}

/// The value stored at anchor `(row, col)` of `t`, if that position holds one.
pub open spec fn occupant_of<T>(t: Table<T>, row: int, col: int) -> Option<T> {
    match t.cell_or_empty(row, col) {
        Cell::Occupied { value, colspan: _, rowspan: _ } => Some(value),
        _ => None,
    }
}

/// The cell that position `(r, c)` holds after a successful placement of
/// `value` at anchor `(row, col)` with the given spans on grid `t`: the anchor
/// holds the new occupant, the rest of the new rectangle is shadowed by it,
/// what remains of the overwritten occupant's old rectangle is cleared, and
/// every other position keeps its old cell (`Empty` where the grid grew).
pub open spec fn placed_cell<T>(
    t: Table<T>,
    value: T,
    row: u32,
    col: u32,
    rowspan: u32,
    colspan: u32,
    r: int,
    c: int,
) -> Cell<T> {
    if r == row && c == col {
        Cell::Occupied { value, colspan, rowspan }
    } else if in_rect(r, c, row as int, col as int, rowspan as int, colspan as int) {
        Cell::Shadowed { col, row }
    } else if in_old_span(t, row as int, col as int, r, c) {
        Cell::Empty
    } else {
        t.cell_or_empty(r, c)
    }
}

/// How one source cell relates to the corresponding cell of a `map` result:
/// geometry and shadow references are copied, each stored value passes
/// through `f`.
pub open spec fn map_cell_related<T, U, F: Fn(T) -> U>(a: Cell<T>, b: Cell<U>, f: F) -> bool {
    match a {
        Cell::Empty => b is Empty,
        Cell::Occupied { value, colspan, rowspan } => (b matches Cell::Occupied {
            value: u,
            colspan: c2,
            rowspan: r2,
        } && c2 == colspan && r2 == rowspan && call_ensures(f, (value,), u)),
        Cell::Shadowed { col, row } => b == (Cell::<U>::Shadowed { col, row }),
    }
}

/// Whether the shadow at flat index `i`, referencing anchor `(ar, ac)`, loses
/// its anchor in a `flat_map` with the per-cell outcomes `choices`: the anchor
/// precedes the shadow in row-major order, held an occupant whose two spans
/// both differ from one, and the occupant was dropped.
pub open spec fn anchor_dropped<T, U>(
    t: Table<T>,
    choices: Seq<Option<U>>,
    ac: int,
    ar: int,
    i: int,
) -> bool {
    &&& t.in_bounds(ar, ac)
    &&& ar * t.cols() + ac < i
    &&& (t.cell_at(ar, ac) matches Cell::Occupied { value: _, colspan, rowspan } && colspan != 1
        && rowspan != 1)
    &&& choices[ar * t.cols() + ac] is None
}

/// The cell at flat index `i` of a `flat_map` result, given the per-cell
/// outcomes `choices`: an occupant is kept with its geometry or dropped to
/// `Empty`, and a shadow is cleared exactly when its anchor was dropped while
/// spanning more than one row and more than one column.
pub open spec fn flat_map_cell<T, U>(t: Table<T>, choices: Seq<Option<U>>, i: int) -> Cell<U> {
    match t.cells_seq()[i] {
        Cell::Empty => Cell::Empty,
        Cell::Occupied { value: _, colspan, rowspan } => match choices[i] {
            Some(u) => Cell::Occupied { value: u, colspan, rowspan },
            None => Cell::Empty,
        },
        Cell::Shadowed { col, row } => {
            if anchor_dropped(t, choices, col as int, row as int, i) {
                Cell::Empty
            } else {
                Cell::Shadowed { col, row }
            }
        },
    }
}

pub(crate) proof fn lemma_mul_mono2(a: int, b: int, c: int, d: int)
    requires
        0 <= a <= b,
        0 <= c <= d,
    ensures
        a * c <= b * d,
{
    assert(a * c <= b * d) by (nonlinear_arith)
        requires
            0 <= a <= b,
            0 <= c <= d,
    ;
}

pub(crate) proof fn lemma_index_bounds(r: int, c: int, rows: int, cols: int)
    requires
        0 <= r < rows,
        0 <= c < cols,
    ensures
        0 <= r * cols + c,
        r * cols + c < rows * cols,
{
    assert(0 <= r * cols + c && r * cols + c < rows * cols) by (nonlinear_arith)
        requires
            0 <= r < rows,
            0 <= c < cols,
    ;
}

pub(crate) proof fn lemma_index_injective(r1: int, c1: int, r2: int, c2: int, cols: int)
    requires
        0 <= c1 < cols,
        0 <= c2 < cols,
        0 <= r1,
        0 <= r2,
        !(r1 == r2 && c1 == c2),
    ensures
        r1 * cols + c1 != r2 * cols + c2,
{
    assert(r1 * cols + c1 != r2 * cols + c2) by (nonlinear_arith)
        requires
            0 <= c1 < cols,
            0 <= c2 < cols,
            0 <= r1,
            0 <= r2,
            !(r1 == r2 && c1 == c2),
    ;
}

pub(crate) proof fn lemma_mul_step(a: int, b: int)
    ensures
        (a + 1) * b == a * b + b,
{
    assert((a + 1) * b == a * b + b) by (nonlinear_arith);
}

pub(crate) proof fn lemma_mul_mono(a: int, b: int, c: int)
    requires
        a <= b,
        c >= 0,
    ensures
        a * c <= b * c,
{
    assert(a * c <= b * c) by (nonlinear_arith)
        requires
            a <= b,
            c >= 0,
    ;
}

impl<T> Table<T> {
    /// The number of rows.
    pub closed spec fn rows(&self) -> int {
        self.num_rows as int
    }

    /// The number of columns.
    pub closed spec fn cols(&self) -> int {
        self.num_cols as int
    }

    /// The flat row-major cell storage.
    pub closed spec fn cells_seq(&self) -> Seq<Cell<T>> {
        self.cells@
    }

    /// Whether `(r, c)` is a position of the grid.
    pub open spec fn in_bounds(&self, r: int, c: int) -> bool {
        0 <= r < self.rows() && 0 <= c < self.cols()
    }

    /// The cell at position `(r, c)`.
    pub open spec fn cell_at(&self, r: int, c: int) -> Cell<T> {
        self.cells_seq()[r * self.cols() + c]
    }

    /// The cell at `(r, c)`, or `Empty` when the position is out of bounds.
    pub open spec fn cell_or_empty(&self, r: int, c: int) -> Cell<T> {
        if self.in_bounds(r, c) {
            self.cell_at(r, c)
        } else {
            Cell::Empty
        }
    }

    /// The storage holds exactly one cell per grid position.
    pub open spec fn shape_ok(&self) -> bool {
        &&& self.cells_seq().len() == self.rows() * self.cols()
        &&& self.rows() >= 0
        &&& self.cols() >= 0
    }

    /// Every occupied span rectangle lies entirely inside the grid.
    pub open spec fn spans_ok(&self) -> bool {
        forall|r: int, c: int|
            self.in_bounds(r, c) ==> match #[trigger] self.cell_at(r, c) {
                Cell::Occupied { value: _, colspan, rowspan } => r + rowspan <= self.rows() && c
                    + colspan <= self.cols(),
                _ => true,
            }
    }

    /// Structural well-formedness: rectangular storage and in-bounds spans.
    pub open spec fn wf(&self) -> bool {
        &&& self.shape_ok()
        &&& self.spans_ok()
    }

    /// A grid with no rows and no columns.
    pub fn new() -> (t: Table<T>)
        ensures
            t.wf(),
            t.rows() == 0,
            t.cols() == 0,
    {
        Table { num_cols: 0, num_rows: 0, cells: Vec::new() }
    }

    /// A grid of the given shape with every cell `Empty`.
    pub fn empty(rows: u32, columns: u32) -> (t: Table<T>)
        requires
            rows * columns <= usize::MAX,
        ensures
            t.wf(),
            t.rows() == rows,
            t.cols() == columns,
            forall|r: int, c: int| t.in_bounds(r, c) ==> #[trigger] t.cell_at(r, c) is Empty,
    {
        let mut t = Table { num_cols: columns, num_rows: 0, cells: Vec::new() };
        t.grow_rows(rows);
        t
    }

    /// The shape of the grid as `(rows, columns)`.
    pub fn size(&self) -> (s: (u32, u32))
        ensures
            s.0 == self.rows(),
            s.1 == self.cols(),
    {
        (self.num_rows, self.num_cols)
    }

    /// A shared reference to the cell at an in-bounds position.
    pub(crate) fn cell_ref(&self, row: u32, col: u32) -> (c: &Cell<T>)
        requires
            self.shape_ok(),
            self.in_bounds(row as int, col as int),
        ensures
            *c == self.cell_at(row as int, col as int),
    {
        proof {
            lemma_index_bounds(row as int, col as int, self.rows(), self.cols());
            assert(self.cols() * (row as int) == (row as int) * self.cols()) by (nonlinear_arith);
        }
        // The storage length, and with it every in-bounds flat index, fits in usize.
        let _ = self.cells.len();
        let idx: usize = (self.num_cols as usize) * (row as usize) + (col as usize);
        &self.cells[idx]
    }

    /// Overwrites the cell at an in-bounds position, returning the old cell.
    fn replace_at(&mut self, row: u32, col: u32, cell: Cell<T>) -> (prev: Cell<T>)
        requires
            old(self).shape_ok(),
            old(self).in_bounds(row as int, col as int),
        ensures
            final(self).shape_ok(),
            final(self).rows() == old(self).rows(),
            final(self).cols() == old(self).cols(),
            prev == old(self).cell_at(row as int, col as int),
            final(self).cell_at(row as int, col as int) == cell,
            forall|r: int, c: int|
                final(self).in_bounds(r, c) && !(r == row && c == col)
                    ==> #[trigger] final(self).cell_at(r, c) == old(self).cell_at(r, c),
    {
        proof {
            lemma_index_bounds(row as int, col as int, self.rows(), self.cols());
            assert(self.cols() * (row as int) == (row as int) * self.cols()) by (nonlinear_arith);
        }
        // The storage length, and with it every in-bounds flat index, fits in usize.
        let _ = self.cells.len();
        let idx: usize = (self.num_cols as usize) * (row as usize) + (col as usize);
        self.cells.push(cell);
        let prev = self.cells.swap_remove(idx);
        proof {
            assert(self.cells@ =~= old(self).cells_seq().update(
                row as int * old(self).cols() + col as int,
                cell,
            ));
            assert forall|r: int, c: int|
                self.in_bounds(r, c) && !(r == row && c == col) implies #[trigger] self.cell_at(
                r,
                c,
            ) == old(self).cell_at(r, c) by {
                lemma_index_bounds(r, c, self.rows(), self.cols());
                lemma_index_injective(r, c, row as int, col as int, self.cols());
            }
        }
        prev
    }

    /// Overwrites the cell at an in-bounds position.
    fn set_at(&mut self, row: u32, col: u32, cell: Cell<T>)
        requires
            old(self).shape_ok(),
            old(self).in_bounds(row as int, col as int),
        ensures
            final(self).shape_ok(),
            final(self).rows() == old(self).rows(),
            final(self).cols() == old(self).cols(),
            final(self).cell_at(row as int, col as int) == cell,
            forall|r: int, c: int|
                final(self).in_bounds(r, c) && !(r == row && c == col)
                    ==> #[trigger] final(self).cell_at(r, c) == old(self).cell_at(r, c),
    {
        let _ = self.replace_at(row, col, cell);
    }

    /// Appends empty rows until the grid has `new_rows` rows.
    fn grow_rows(&mut self, new_rows: u32)
        requires
            old(self).shape_ok(),
            new_rows >= old(self).rows(),
            new_rows * old(self).cols() <= usize::MAX,
        ensures
            final(self).shape_ok(),
            final(self).rows() == new_rows,
            final(self).cols() == old(self).cols(),
            forall|r: int, c: int|
                final(self).in_bounds(r, c) ==> #[trigger] final(self).cell_at(r, c) == old(
                    self,
                ).cell_or_empty(r, c),
    {
        let ghost orig = self.cells@;
        proof {
            let r0 = old(self).rows();
            let c0 = old(self).cols();
            let nr = new_rows as int;
            assert(orig.len() == r0 * c0);
            assert(r0 * c0 <= nr * c0) by (nonlinear_arith)
                requires
                    0 <= r0 <= nr,
                    c0 >= 0,
            ;
        }
        let target: usize = (new_rows as usize) * (self.num_cols as usize);
        while self.cells.len() < target
            invariant
                target == new_rows * old(self).cols(),
                self.num_cols == old(self).num_cols,
                self.num_rows == old(self).num_rows,
                orig == old(self).cells_seq(),
                orig.len() <= self.cells@.len() <= target,
                forall|i: int|
                    0 <= i < self.cells@.len() ==> #[trigger] self.cells@[i] == (if i < orig.len() {
                        orig[i]
                    } else {
                        Cell::Empty
                    }),
            decreases target - self.cells@.len(),
        {
            self.cells.push(Cell::Empty);
        }
        self.num_rows = new_rows;
        proof {
            assert forall|r: int, c: int| self.in_bounds(r, c) implies #[trigger] self.cell_at(r, c)
                == old(self).cell_or_empty(r, c) by {
                lemma_index_bounds(r, c, self.rows(), self.cols());
                if r < old(self).rows() {
                    lemma_index_bounds(r, c, old(self).rows(), old(self).cols());
                } else {
                    let r0 = old(self).rows();
                    let c0 = old(self).cols();
                    assert(r * c0 + c >= r0 * c0) by (nonlinear_arith)
                        requires
                            r >= r0 >= 0,
                            0 <= c < c0,
                    ;
                }
            }
        }
    }

    /// Rebuilds the storage with `new_cols` columns: each existing row keeps
    /// its cells and gains empty cells on the right.
    fn grow_cols(&mut self, new_cols: u32)
        requires
            old(self).shape_ok(),
            new_cols >= old(self).cols(),
            old(self).rows() * new_cols <= usize::MAX,
        ensures
            final(self).shape_ok(),
            final(self).rows() == old(self).rows(),
            final(self).cols() == new_cols,
            forall|r: int, c: int|
                final(self).in_bounds(r, c) ==> #[trigger] final(self).cell_at(r, c) == old(
                    self,
                ).cell_or_empty(r, c),
    {
        let ghost orig = self.cells@;
        let rows = self.num_rows;
        let old_cols = self.num_cols;
        let mut rev: Vec<Cell<T>> = Vec::new();
        while self.cells.len() > 0
            invariant
                rev@.len() + self.cells@.len() == orig.len(),
                forall|i: int| 0 <= i < self.cells@.len() ==> #[trigger] self.cells@[i] == orig[i],
                forall|j: int|
                    0 <= j < rev@.len() ==> #[trigger] rev@[j] == orig[orig.len() - 1 - j],
                self.num_rows == old(self).num_rows,
                self.num_cols == old(self).num_cols,
            decreases self.cells@.len(),
        {
            let x = self.cells.pop().unwrap();
            rev.push(x);
        }
        let mut r: u32 = 0;
        while r < rows
            invariant
                0 <= r <= rows,
                rows as int == old(self).rows(),
                old_cols as int == old(self).cols(),
                new_cols >= old_cols,
                orig == old(self).cells_seq(),
                orig.len() == rows * old_cols,
                rows * new_cols <= usize::MAX,
                self.num_rows == old(self).num_rows,
                self.num_cols == old(self).num_cols,
                self.cells@.len() == r * new_cols,
                rev@.len() == orig.len() - r * old_cols,
                forall|j: int|
                    0 <= j < rev@.len() ==> #[trigger] rev@[j] == orig[orig.len() - 1 - j],
                forall|rr: int, cc: int|
                    0 <= rr < r && 0 <= cc < new_cols ==> #[trigger] self.cells@[rr * new_cols
                        + cc] == (if cc < old_cols {
                        orig[rr * old_cols + cc]
                    } else {
                        Cell::Empty
                    }),
            decreases rows - r,
        {
            proof {
                lemma_mul_step(r as int, old_cols as int);
                lemma_mul_step(r as int, new_cols as int);
                lemma_mul_mono(r as int + 1, rows as int, old_cols as int);
                lemma_mul_mono(r as int + 1, rows as int, new_cols as int);
            }
            let mut c: u32 = 0;
            while c < new_cols
                invariant
                    0 <= c <= new_cols,
                    0 <= r < rows,
                    rows as int == old(self).rows(),
                    old_cols as int == old(self).cols(),
                    new_cols >= old_cols,
                    orig == old(self).cells_seq(),
                    orig.len() == rows * old_cols,
                    rows * new_cols <= usize::MAX,
                    (r + 1) * old_cols == r * old_cols + old_cols,
                    (r + 1) * new_cols == r * new_cols + new_cols,
                    (r + 1) * old_cols <= rows * old_cols,
                    (r + 1) * new_cols <= rows * new_cols,
                    self.num_rows == old(self).num_rows,
                    self.num_cols == old(self).num_cols,
                    self.cells@.len() == r * new_cols + c,
                    rev@.len() == orig.len() - r * old_cols - (if c < old_cols {
                        c as int
                    } else {
                        old_cols as int
                    }),
                    forall|j: int|
                        0 <= j < rev@.len() ==> #[trigger] rev@[j] == orig[orig.len() - 1 - j],
                    forall|rr: int, cc: int|
                        0 <= rr < r && 0 <= cc < new_cols ==> #[trigger] self.cells@[rr * new_cols
                            + cc] == (if cc < old_cols {
                            orig[rr * old_cols + cc]
                        } else {
                            Cell::Empty
                        }),
                    forall|cc: int|
                        0 <= cc < c ==> #[trigger] self.cells@[r * new_cols + cc] == (if cc
                            < old_cols {
                            orig[r * old_cols + cc]
                        } else {
                            Cell::Empty
                        }),
                decreases new_cols - c,
            {
                if c < old_cols {
                    let x = rev.pop().unwrap();
                    self.cells.push(x);
                } else {
                    self.cells.push(Cell::Empty);
                }
                proof {
                    assert forall|rr: int, cc: int|
                        0 <= rr < r && 0 <= cc < new_cols implies #[trigger] self.cells@[rr
                        * new_cols + cc] == (if cc < old_cols {
                        orig[rr * old_cols + cc]
                    } else {
                        Cell::Empty
                    }) by {
                        lemma_index_bounds(rr, cc, r as int, new_cols as int);
                    }
                }
                c += 1;
            }
            r += 1;
        }
        self.num_cols = new_cols;
        proof {
            assert(self.cells@.len() == self.rows() * self.cols());
            assert forall|r2: int, c2: int| self.in_bounds(r2, c2) implies #[trigger] self.cell_at(
                r2,
                c2,
            ) == old(self).cell_or_empty(r2, c2) by {
                lemma_index_bounds(r2, c2, self.rows(), self.cols());
                if c2 < old(self).cols() {
                    lemma_index_bounds(r2, c2, old(self).rows(), old(self).cols());
                }
            }
        }
    }

    /// Sets every cell of the given rectangle except its anchor to `Empty`.
    fn clear_rect_except(&mut self, row: u32, col: u32, rowspan: u32, colspan: u32)
        requires
            old(self).shape_ok(),
            0 <= row as int + rowspan as int <= old(self).rows(),
            0 <= col as int + colspan as int <= old(self).cols(),
        ensures
            final(self).shape_ok(),
            final(self).rows() == old(self).rows(),
            final(self).cols() == old(self).cols(),
            forall|r: int, c: int|
                final(self).in_bounds(r, c) ==> #[trigger] final(self).cell_at(r, c) == (if in_rect(
                    r,
                    c,
                    row as int,
                    col as int,
                    rowspan as int,
                    colspan as int,
                ) && !(r == row && c == col) {
                    Cell::Empty
                } else {
                    old(self).cell_at(r, c)
                }),
    {
        let mut r = row;
        while r < row + rowspan
            invariant
                row <= r <= row + rowspan,
                self.shape_ok(),
                self.rows() == old(self).rows(),
                self.cols() == old(self).cols(),
                row as int + rowspan as int <= self.rows(),
                col as int + colspan as int <= self.cols(),
                forall|rr: int, cc: int|
                    self.in_bounds(rr, cc) ==> #[trigger] self.cell_at(rr, cc) == (if in_rect(
                        rr,
                        cc,
                        row as int,
                        col as int,
                        rowspan as int,
                        colspan as int,
                    ) && rr < r && !(rr == row && cc == col) {
                        Cell::Empty
                    } else {
                        old(self).cell_at(rr, cc)
                    }),
            decreases row + rowspan - r,
        {
            let mut c = col;
            while c < col + colspan
                invariant
                    row <= r < row + rowspan,
                    col <= c <= col + colspan,
                    self.shape_ok(),
                    self.rows() == old(self).rows(),
                    self.cols() == old(self).cols(),
                    row as int + rowspan as int <= self.rows(),
                    col as int + colspan as int <= self.cols(),
                    forall|rr: int, cc: int|
                        self.in_bounds(rr, cc) ==> #[trigger] self.cell_at(rr, cc) == (if in_rect(
                            rr,
                            cc,
                            row as int,
                            col as int,
                            rowspan as int,
                            colspan as int,
                        ) && (rr < r || (rr == r && cc < c)) && !(rr == row && cc == col) {
                            Cell::Empty
                        } else {
                            old(self).cell_at(rr, cc)
                        }),
                decreases col + colspan - c,
            {
                if !(r == row && c == col) {
                    self.set_at(r, c, Cell::Empty);
                }
                c += 1;
            }
            r += 1;
        }
    }

    /// Sets every cell of the given rectangle except its anchor to a shadow
    /// referencing the anchor.
    fn shadow_rect_except(&mut self, row: u32, col: u32, rowspan: u32, colspan: u32)
        requires
            old(self).shape_ok(),
            0 <= row as int + rowspan as int <= old(self).rows(),
            0 <= col as int + colspan as int <= old(self).cols(),
        ensures
            final(self).shape_ok(),
            final(self).rows() == old(self).rows(),
            final(self).cols() == old(self).cols(),
            forall|r: int, c: int|
                final(self).in_bounds(r, c) ==> #[trigger] final(self).cell_at(r, c) == (if in_rect(
                    r,
                    c,
                    row as int,
                    col as int,
                    rowspan as int,
                    colspan as int,
                ) && !(r == row && c == col) {
                    Cell::Shadowed { col, row }
                } else {
                    old(self).cell_at(r, c)
                }),
    {
        let mut r = row;
        while r < row + rowspan
            invariant
                row <= r <= row + rowspan,
                self.shape_ok(),
                self.rows() == old(self).rows(),
                self.cols() == old(self).cols(),
                row as int + rowspan as int <= self.rows(),
                col as int + colspan as int <= self.cols(),
                forall|rr: int, cc: int|
                    self.in_bounds(rr, cc) ==> #[trigger] self.cell_at(rr, cc) == (if in_rect(
                        rr,
                        cc,
                        row as int,
                        col as int,
                        rowspan as int,
                        colspan as int,
                    ) && rr < r && !(rr == row && cc == col) {
                        Cell::Shadowed { col, row }
                    } else {
                        old(self).cell_at(rr, cc)
                    }),
            decreases row + rowspan - r,
        {
            let mut c = col;
            while c < col + colspan
                invariant
                    row <= r < row + rowspan,
                    col <= c <= col + colspan,
                    self.shape_ok(),
                    self.rows() == old(self).rows(),
                    self.cols() == old(self).cols(),
                    row as int + rowspan as int <= self.rows(),
                    col as int + colspan as int <= self.cols(),
                    forall|rr: int, cc: int|
                        self.in_bounds(rr, cc) ==> #[trigger] self.cell_at(rr, cc) == (if in_rect(
                            rr,
                            cc,
                            row as int,
                            col as int,
                            rowspan as int,
                            colspan as int,
                        ) && (rr < r || (rr == r && cc < c)) && !(rr == row && cc == col) {
                            Cell::Shadowed { col, row }
                        } else {
                            old(self).cell_at(rr, cc)
                        }),
                decreases col + colspan - c,
            {
                if !(r == row && c == col) {
                    self.set_at(r, c, Cell::Shadowed { col, row });
                }
                c += 1;
            }
            r += 1;
        }
    }

    /// Places `value` at anchor `(row, col)` spanning `rowspan x colspan`
    /// cells. The grid grows (never shrinks) so the rectangle fits. A fresh
    /// placement returns `Ok(None)`; overwriting an occupant clears what is
    /// left of its old rectangle and returns the old value; an anchor that is
    /// shadowed by another span rejects the placement with a conflict error
    /// and leaves the grid entirely unchanged.
    pub fn set_cell(&mut self, value: T, row: u32, col: u32, rowspan: u32, colspan: u32) -> (result:
        Result<Option<T>, Error>)
        requires
            old(self).wf(),
            rowspan >= 1,
            colspan >= 1,
            row + rowspan <= u32::MAX,
            col + colspan <= u32::MAX,
            grown_dim(old(self).rows(), row + rowspan) * grown_dim(old(self).cols(), col + colspan)
                <= usize::MAX,
        ensures
            final(self).wf(),
            final(self).rows() >= old(self).rows(),
            final(self).cols() >= old(self).cols(),
            match result {
                Ok(prev) => {
                    &&& !(old(self).cell_or_empty(row as int, col as int) is Shadowed)
                    &&& prev == occupant_of(*old(self), row as int, col as int)
                    &&& final(self).rows() == grown_dim(old(self).rows(), row + rowspan)
                    &&& final(self).cols() == grown_dim(old(self).cols(), col + colspan)
                    &&& forall|r: int, c: int|
                        final(self).in_bounds(r, c) ==> #[trigger] final(self).cell_at(r, c)
                            == placed_cell(*old(self), value, row, col, rowspan, colspan, r, c)
                },
                Err(e) => {
                    &&& *final(self) == *old(self)
                    &&& old(self).cell_or_empty(row as int, col as int) matches Cell::Shadowed {
                        col: sc,
                        row: sr,
                    } && e == (Error::Shadowed { col: sc, row: sr })
                },
            },
    {
        if row < self.num_rows && col < self.num_cols {
            match self.cell_ref(row, col) {
                Cell::Shadowed { col: sc, row: sr } => {
                    return Err(Error::Shadowed { col: *sc, row: *sr });
                },
                _ => {},
            }
        }
        let required_cols = col + colspan;
        let required_rows = row + rowspan;
        proof {
            lemma_mul_mono(self.rows(), grown_dim(self.rows(), required_rows as int), required_cols as int);
            lemma_mul_mono(self.rows(), grown_dim(self.rows(), required_rows as int), self.cols());
            lemma_mul_mono2(
                self.rows(),
                grown_dim(self.rows(), required_rows as int),
                self.cols(),
                grown_dim(self.cols(), required_cols as int),
            );
            lemma_mul_mono2(
                required_rows as int,
                grown_dim(self.rows(), required_rows as int),
                required_cols as int,
                grown_dim(self.cols(), required_cols as int),
            );
        }
        if required_cols > self.num_cols {
            self.grow_cols(required_cols);
        }
        if required_rows > self.num_rows {
            self.grow_rows(required_rows);
        }
        proof {
            assert(self.rows() == grown_dim(old(self).rows(), required_rows as int));
            assert(self.cols() == grown_dim(old(self).cols(), required_cols as int));
            assert forall|r: int, c: int| self.in_bounds(r, c) implies #[trigger] self.cell_at(r, c)
                == old(self).cell_or_empty(r, c) by {}
        }
        let ghost grown = *self;
        let prev = self.replace_at(row, col, Cell::Occupied { value, colspan, rowspan });
        let ghost anchored = *self;
        match prev {
            Cell::Occupied { value: old_value, colspan: old_colspan, rowspan: old_rowspan } => {
                proof {
                    assert(old(self).in_bounds(row as int, col as int));
                    assert(row as int + old_rowspan as int <= old(self).rows());
                    assert(col as int + old_colspan as int <= old(self).cols());
                }
                self.clear_rect_except(row, col, old_rowspan, old_colspan);
                let ghost cleared = *self;
                self.shadow_rect_except(row, col, rowspan, colspan);
                proof {
                    assert forall|r: int, c: int| self.in_bounds(r, c) implies #[trigger] self.cell_at(
                        r,
                        c,
                    ) == placed_cell(*old(self), value, row, col, rowspan, colspan, r, c) by {}
                    assert(self.spans_ok()) by {
                        assert forall|r: int, c: int|
                            self.in_bounds(r, c) implies match #[trigger] self.cell_at(r, c) {
                            Cell::Occupied { value: _, colspan: cs, rowspan: rs } => r + rs
                                <= self.rows() && c + cs <= self.cols(),
                            _ => true,
                        } by {}
                    }
                }
                Ok(Some(old_value))
            },
            Cell::Empty => {
                self.shadow_rect_except(row, col, rowspan, colspan);
                proof {
                    assert forall|r: int, c: int| self.in_bounds(r, c) implies #[trigger] self.cell_at(
                        r,
                        c,
                    ) == placed_cell(*old(self), value, row, col, rowspan, colspan, r, c) by {}
                    assert(self.spans_ok()) by {
                        assert forall|r: int, c: int|
                            self.in_bounds(r, c) implies match #[trigger] self.cell_at(r, c) {
                            Cell::Occupied { value: _, colspan: cs, rowspan: rs } => r + rs
                                <= self.rows() && c + cs <= self.cols(),
                            _ => true,
                        } by {}
                    }
                }
                Ok(None)
            },
            Cell::Shadowed { .. } => {
                proof {
                    assert(false);
                }
                vstd::pervasive::unreached()
            },
        }
    }

    /// A mutable reference to the value stored at an anchor known to be
    /// occupied.
    fn value_mut_at(&mut self, row: u32, col: u32) -> (r: &mut T)
        requires
            old(self).shape_ok(),
            old(self).in_bounds(row as int, col as int),
            old(self).cell_at(row as int, col as int) is Occupied,
        ensures
            old(self).cell_at(row as int, col as int) matches Cell::Occupied {
                value,
                colspan,
                rowspan,
            } && *r == value && final(self).cells_seq() == old(self).cells_seq().update(
                row as int * old(self).cols() + col as int,
                Cell::Occupied { value: *final(r), colspan, rowspan },
            ),
            final(self).rows() == old(self).rows(),
            final(self).cols() == old(self).cols(),
    {
        proof {
            lemma_index_bounds(row as int, col as int, self.rows(), self.cols());
            assert(self.cols() * (row as int) == (row as int) * self.cols()) by (nonlinear_arith);
        }
        // The storage length, and with it every in-bounds flat index, fits in usize.
        let _ = self.cells.len();
        let idx: usize = (self.num_cols as usize) * (row as usize) + (col as usize);
        let cell = &mut self.cells[idx];
        match cell {
            Cell::Occupied { value, colspan: _, rowspan: _ } => value,
            _ => {
                proof {
                    assert(false);
                }
                vstd::pervasive::unreached()
            },
        }
    }

    /// A mutable reference to the value at `(row, col)` when that position is
    /// an occupied anchor; no value for an empty cell, a shadowed cell, or an
    /// out-of-bounds position. Geometry is never touched.
    pub fn get_cell_value_mut(&mut self, row: u32, col: u32) -> (r: Option<&mut T>)
        requires
            old(self).wf(),
        ensures
            final(self).rows() == old(self).rows(),
            final(self).cols() == old(self).cols(),
            match r {
                Some(x) => {
                    &&& old(self).in_bounds(row as int, col as int)
                    &&& old(self).cell_at(row as int, col as int) matches Cell::Occupied {
                        value,
                        colspan,
                        rowspan,
                    } && *x == value && final(self).cells_seq() == old(self).cells_seq().update(
                        row as int * old(self).cols() + col as int,
                        Cell::Occupied { value: *final(x), colspan, rowspan },
                    )
                },
                None => {
                    &&& *final(self) == *old(self)
                    &&& !(old(self).cell_or_empty(row as int, col as int) is Occupied)
                },
            },
    {
        if row < self.num_rows && col < self.num_cols {
            let occupied = match self.cell_ref(row, col) {
                Cell::Occupied { .. } => true,
                _ => false,
            };
            if occupied {
                Some(self.value_mut_at(row, col))
            } else {
                None
            }
        } else {
            None
        }
    }

    /// A structure-preserving transform: every stored value passes through
    /// `f`; geometry, empty cells and shadow references are unchanged.
    pub fn map<U, F: Fn(T) -> U>(self, f: F) -> (m: Table<U>)
        requires
            forall|i: int|
                0 <= i < self.cells_seq().len()
                    ==> (#[trigger] self.cells_seq()[i] matches Cell::Occupied { value, .. }
                    ==> call_requires(f, (value,))),
        ensures
            m.rows() == self.rows(),
            m.cols() == self.cols(),
            m.cells_seq().len() == self.cells_seq().len(),
            self.wf() ==> m.wf(),
            forall|i: int|
                0 <= i < self.cells_seq().len() ==> map_cell_related(
                    self.cells_seq()[i],
                    #[trigger] m.cells_seq()[i],
                    f,
                ),
    {
        let ghost orig = self;
        let Table { num_cols, num_rows, mut cells } = self;
        let mut rev: Vec<Cell<T>> = Vec::new();
        while cells.len() > 0
            invariant
                forall|i: int|
                    0 <= i < orig.cells_seq().len()
                        ==> (#[trigger] orig.cells_seq()[i] matches Cell::Occupied { value, .. }
                        ==> call_requires(f, (value,))),
                rev@.len() + cells@.len() == orig.cells_seq().len(),
                forall|i: int|
                    0 <= i < cells@.len() ==> #[trigger] cells@[i] == orig.cells_seq()[i],
                forall|j: int|
                    0 <= j < rev@.len() ==> #[trigger] rev@[j] == orig.cells_seq()[orig.cells_seq().len()
                        - 1 - j],
            decreases cells@.len(),
        {
            let x = cells.pop().unwrap();
            rev.push(x);
        }
        let mut out: Vec<Cell<U>> = Vec::new();
        while rev.len() > 0
            invariant
                forall|i: int|
                    0 <= i < orig.cells_seq().len()
                        ==> (#[trigger] orig.cells_seq()[i] matches Cell::Occupied { value, .. }
                        ==> call_requires(f, (value,))),
                out@.len() + rev@.len() == orig.cells_seq().len(),
                forall|j: int|
                    0 <= j < rev@.len() ==> #[trigger] rev@[j] == orig.cells_seq()[orig.cells_seq().len()
                        - 1 - j],
                forall|i: int|
                    0 <= i < out@.len() ==> map_cell_related(
                        orig.cells_seq()[i],
                        #[trigger] out@[i],
                        f,
                    ),
            decreases rev@.len(),
        {
            let x = rev.pop().unwrap();
            let y = match x {
                Cell::Empty => Cell::Empty,
                Cell::Occupied { value, colspan, rowspan } => Cell::Occupied {
                    value: f(value),
                    colspan,
                    rowspan,
                },
                Cell::Shadowed { col, row } => Cell::Shadowed { col, row },
            };
            out.push(y);
        }
        let m = Table { num_cols, num_rows, cells: out };
        proof {
            if orig.wf() {
                assert forall|r: int, c: int|
                    m.in_bounds(r, c) implies match #[trigger] m.cell_at(r, c) {
                    Cell::Occupied { value: _, colspan: cs, rowspan: rs } => r + rs <= m.rows() && c
                        + cs <= m.cols(),
                    _ => true,
                } by {
                    lemma_index_bounds(r, c, m.rows(), m.cols());
                    let i = r * m.cols() + c;
                    assert(orig.in_bounds(r, c));
                    assert(orig.cell_at(r, c) == orig.cells_seq()[i]);
                    assert(map_cell_related(orig.cells_seq()[i], m.cells_seq()[i], f));
                }
            }
        }
        m
    }

    /// A value-filtering transform of the same shape. An occupant for which
    /// `f` yields a value keeps its geometry; one for which `f` yields nothing
    /// becomes `Empty`, and its shadows are cleared exactly when both of its
    /// spans differ from one. All other shadows keep their reference.
    pub fn flat_map<U, F: Fn(&T) -> Option<U>>(&self, f: F) -> (m: Table<U>)
        requires
            self.wf(),
            forall|i: int|
                0 <= i < self.cells_seq().len()
                    ==> (#[trigger] self.cells_seq()[i] matches Cell::Occupied { value, .. }
                    ==> call_requires(f, (&value,))),
        ensures
            m.rows() == self.rows(),
            m.cols() == self.cols(),
            m.cells_seq().len() == self.cells_seq().len(),
            m.wf(),
            exists|choices: Seq<Option<U>>|
                {
                    &&& (#[trigger] choices.len()) == self.cells_seq().len()
                    &&& (forall|i: int|
                        0 <= i < self.cells_seq().len()
                            ==> (#[trigger] self.cells_seq()[i] matches Cell::Occupied {
                            value,
                            ..
                        } ==> call_ensures(f, (&value,), choices[i])))
                    &&& (forall|i: int|
                        0 <= i < self.cells_seq().len() ==> #[trigger] m.cells_seq()[i]
                            == flat_map_cell(*self, choices, i))
                },
    {
        let rows = self.num_rows;
        let cols = self.num_cols;
        let mut out: Vec<Cell<U>> = Vec::new();
        let ghost mut choices: Seq<Option<U>> = Seq::empty();
        let mut r: u32 = 0;
        while r < rows
            invariant
                self.wf(),
                forall|i: int|
                    0 <= i < self.cells_seq().len()
                        ==> (#[trigger] self.cells_seq()[i] matches Cell::Occupied { value, .. }
                        ==> call_requires(f, (&value,))),
                0 <= r <= rows,
                rows as int == self.rows(),
                cols as int == self.cols(),
                out@.len() == r * cols,
                choices.len() == out@.len(),
                forall|k: int|
                    0 <= k < out@.len()
                        ==> (#[trigger] self.cells_seq()[k] matches Cell::Occupied { value, .. }
                        ==> call_ensures(f, (&value,), choices[k])),
                forall|k: int|
                    0 <= k < out@.len() ==> #[trigger] out@[k] == flat_map_cell(*self, choices, k),
            decreases rows - r,
        {
            proof {
                lemma_mul_step(r as int, cols as int);
                lemma_mul_mono(r as int + 1, rows as int, cols as int);
            }
            let mut c: u32 = 0;
            while c < cols
                invariant
                    self.wf(),
                    forall|i: int|
                        0 <= i < self.cells_seq().len()
                            ==> (#[trigger] self.cells_seq()[i] matches Cell::Occupied { value, .. }
                            ==> call_requires(f, (&value,))),
                    0 <= r < rows,
                    0 <= c <= cols,
                    rows as int == self.rows(),
                    cols as int == self.cols(),
                    (r + 1) * cols == r * cols + cols,
                    (r + 1) * cols <= rows * cols,
                    out@.len() == r * cols + c,
                    choices.len() == out@.len(),
                    forall|k: int|
                        0 <= k < out@.len()
                            ==> (#[trigger] self.cells_seq()[k] matches Cell::Occupied {
                            value,
                            ..
                        } ==> call_ensures(f, (&value,), choices[k])),
                    forall|k: int|
                        0 <= k < out@.len() ==> #[trigger] out@[k] == flat_map_cell(
                            *self,
                            choices,
                            k,
                        ),
                decreases cols - c,
            {
                proof {
                    lemma_index_bounds(r as int, c as int, self.rows(), self.cols());
                }
                let ghost i = r as int * self.cols() + c as int;
                let y: Cell<U> = match self.cell_ref(r, c) {
                    Cell::Empty => {
                        proof {
                            choices = choices.push(Option::None);
                        }
                        Cell::Empty
                    },
                    Cell::Occupied { value, colspan, rowspan } => {
                        let res = f(value);
                        proof {
                            choices = choices.push(res);
                        }
                        match res {
                            Option::Some(u) => Cell::Occupied {
                                value: u,
                                colspan: *colspan,
                                rowspan: *rowspan,
                            },
                            Option::None => Cell::Empty,
                        }
                    },
                    Cell::Shadowed { col: ac, row: ar } => {
                        proof {
                            choices = choices.push(Option::None);
                        }
                        let mut dropped = false;
                        if *ar < rows && *ac < cols {
                            proof {
                                lemma_index_bounds(*ar as int, *ac as int, self.rows(), self.cols());
                                assert(self.cols() * (*ar as int) == (*ar as int) * self.cols())
                                    by (nonlinear_arith);
                            }
                            // The storage length, and with it every in-bounds flat index, fits in usize.
        let _ = self.cells.len();
                            let aidx: usize = (cols as usize) * (*ar as usize) + (*ac as usize);
                            let here: usize = out.len();
                            if aidx < here {
                                let anchor_gone = match &out[aidx] {
                                    Cell::Empty => true,
                                    _ => false,
                                };
                                match self.cell_ref(*ar, *ac) {
                                    Cell::Occupied { value: _, colspan, rowspan } => {
                                        if *colspan != 1 && *rowspan != 1 && anchor_gone {
                                            dropped = true;
                                        }
                                    },
                                    _ => {},
                                }
                            }
                        }
                        if dropped {
                            Cell::Empty
                        } else {
                            Cell::Shadowed { col: *ac, row: *ar }
                        }
                    },
                };
                out.push(y);
                proof {
                    assert(out@[i] == flat_map_cell(*self, choices, i));
                    assert forall|k: int| 0 <= k < out@.len() implies #[trigger] out@[k]
                        == flat_map_cell(*self, choices, k) by {}
                }
                c += 1;
            }
            r += 1;
        }
        let m = Table::<U> { num_cols: cols, num_rows: rows, cells: out };
        proof {
            assert(m.shape_ok());
            assert forall|r2: int, c2: int|
                m.in_bounds(r2, c2) implies match #[trigger] m.cell_at(r2, c2) {
                Cell::Occupied { value: _, colspan: cs, rowspan: rs } => r2 + rs <= m.rows() && c2
                    + cs <= m.cols(),
                _ => true,
            } by {
                lemma_index_bounds(r2, c2, m.rows(), m.cols());
                let i = r2 * m.cols() + c2;
                assert(m.cells_seq()[i] == flat_map_cell(*self, choices, i));
                assert(self.cell_at(r2, c2) == self.cells_seq()[i]);
            }
            assert(choices.len() == self.cells_seq().len());
        }
        m
    }

    /// The occupied cells of the grid in row-major order, each as a borrowed
    /// view of the stored value together with its anchor position and spans.
    pub fn values(&self) -> (vals: Vec<CellValue<'_, T>>)
        requires
            self.wf(),
        ensures
            forall|j: int|
                0 <= j < vals@.len() ==> {
                    let cv = #[trigger] vals@[j];
                    &&& self.in_bounds(cv.row as int, cv.col as int)
                    &&& self.cell_at(cv.row as int, cv.col as int) == (Cell::Occupied {
                        value: *cv.value,
                        colspan: cv.colspan,
                        rowspan: cv.rowspan,
                    })
                },
            forall|j1: int, j2: int|
                0 <= j1 < j2 < vals@.len() ==> (#[trigger] vals@[j1]).row * self.cols() + vals@[j1].col
                    < (#[trigger] vals@[j2]).row * self.cols() + vals@[j2].col,
            forall|r: int, c: int|
                self.in_bounds(r, c) && (#[trigger] self.cell_at(r, c)) is Occupied ==> exists|j: int|
                    0 <= j < vals@.len() && (#[trigger] vals@[j]).row == r && vals@[j].col == c,
    {
        let rows = self.num_rows;
        let cols = self.num_cols;
        let mut vals: Vec<CellValue<'_, T>> = Vec::new();
        let mut r: u32 = 0;
        while r < rows
            invariant
                self.wf(),
                0 <= r <= rows,
                rows as int == self.rows(),
                cols as int == self.cols(),
                forall|j: int|
                    0 <= j < vals@.len() ==> {
                        let cv = #[trigger] vals@[j];
                        &&& self.in_bounds(cv.row as int, cv.col as int)
                        &&& self.cell_at(cv.row as int, cv.col as int) == (Cell::Occupied {
                            value: *cv.value,
                            colspan: cv.colspan,
                            rowspan: cv.rowspan,
                        })
                        &&& cv.row as int * self.cols() + cv.col < r * self.cols()
                    },
                forall|j1: int, j2: int|
                    0 <= j1 < j2 < vals@.len() ==> (#[trigger] vals@[j1]).row * self.cols()
                        + vals@[j1].col < (#[trigger] vals@[j2]).row * self.cols() + vals@[j2].col,
                forall|rr: int, cc: int|
                    self.in_bounds(rr, cc) && rr < r && (#[trigger] self.cell_at(rr, cc)) is Occupied
                        ==> exists|j: int|
                        0 <= j < vals@.len() && (#[trigger] vals@[j]).row == rr && vals@[j].col == cc,
            decreases rows - r,
        {
            let mut c: u32 = 0;
            while c < cols
                invariant
                    self.wf(),
                    0 <= r < rows,
                    0 <= c <= cols,
                    rows as int == self.rows(),
                    cols as int == self.cols(),
                    forall|j: int|
                        0 <= j < vals@.len() ==> {
                            let cv = #[trigger] vals@[j];
                            &&& self.in_bounds(cv.row as int, cv.col as int)
                            &&& self.cell_at(cv.row as int, cv.col as int) == (Cell::Occupied {
                                value: *cv.value,
                                colspan: cv.colspan,
                                rowspan: cv.rowspan,
                            })
                            &&& cv.row as int * self.cols() + cv.col < r * self.cols() + c
                        },
                    forall|j1: int, j2: int|
                        0 <= j1 < j2 < vals@.len() ==> (#[trigger] vals@[j1]).row * self.cols()
                            + vals@[j1].col < (#[trigger] vals@[j2]).row * self.cols()
                            + vals@[j2].col,
                    forall|rr: int, cc: int|
                        self.in_bounds(rr, cc) && (rr < r || (rr == r && cc < c)) && (
                        #[trigger] self.cell_at(rr, cc)) is Occupied ==> exists|j: int|
                            0 <= j < vals@.len() && (#[trigger] vals@[j]).row == rr && vals@[j].col
                            == cc,
                decreases cols - c,
            {
                proof {
                    lemma_index_bounds(r as int, c as int, self.rows(), self.cols());
                }
                match self.cell_ref(r, c) {
                    Cell::Occupied { value, colspan, rowspan } => {
                        let ghost len0 = vals@.len() as int;
                        let ghost prior = vals@;
                        vals.push(
                            CellValue {
                                value,
                                col: c,
                                row: r,
                                colspan: *colspan,
                                rowspan: *rowspan,
                            },
                        );
                        proof {
                            assert(vals@[len0].row == r && vals@[len0].col == c);
                            assert forall|rr: int, cc: int|
                                self.in_bounds(rr, cc) && (rr < r || (rr == r && cc <= c)) && (
                                #[trigger] self.cell_at(rr, cc)) is Occupied implies exists|j: int|
                                0 <= j < vals@.len() && (#[trigger] vals@[j]).row == rr
                                && vals@[j].col == cc by {
                                if rr == r && cc == c {
                                    assert(vals@[len0].row == rr && vals@[len0].col == cc);
                                } else {
                                    let j0 = choose|j: int|
                                        0 <= j < len0 && (#[trigger] prior[j]).row == rr
                                            && prior[j].col == cc;
                                    assert(vals@[j0] == prior[j0]);
                                    assert(0 <= j0 < vals@.len() && vals@[j0].row == rr
                                        && vals@[j0].col == cc);
                                }
                            }
                        }
                    },
                    _ => {},
                }
                proof {
                    assert forall|rr: int, cc: int|
                        self.in_bounds(rr, cc) && (rr < r || (rr == r && cc < c + 1)) && (
                        #[trigger] self.cell_at(rr, cc)) is Occupied implies exists|j: int|
                        0 <= j < vals@.len() && (#[trigger] vals@[j]).row == rr && vals@[j].col
                        == cc by {
                        if !(rr == r && cc == c) {
                            let j0 = choose|j: int|
                                0 <= j < vals@.len() && (#[trigger] vals@[j]).row == rr
                                    && vals@[j].col == cc;
                        }
                    }
                }
                c += 1;
            }
            proof {
                lemma_mul_step(r as int, cols as int);
            }
            r += 1;
        }
        proof {
            assert forall|rr: int, cc: int|
                self.in_bounds(rr, cc) && (#[trigger] self.cell_at(rr, cc)) is Occupied implies exists|j: int|
                0 <= j < vals@.len() && (#[trigger] vals@[j]).row == rr && vals@[j].col == cc by {
                let j0 = choose|j: int|
                    0 <= j < vals@.len() && (#[trigger] vals@[j]).row == rr && vals@[j].col == cc;
            }
        }
        vals
    }
}

/// A borrowed view of one occupied cell: the stored value together with the
/// anchor position and spans of its rectangle.
pub struct CellValue<'a, T> {
    pub value: &'a T,
    pub col: u32,
    pub row: u32,
    pub colspan: u32,
    pub rowspan: u32,
}

} // verus!
