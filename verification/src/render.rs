//! Rendering of a grid as an HTML table fragment.

use vstd::prelude::*;

use crate::cell::Cell;
use crate::digits::dec_str;
use crate::digits::push_dec;
use crate::table::Table;
use crate::table::lemma_index_bounds;
use crate::table::lemma_mul_mono;
use crate::table::lemma_mul_step;
use vstd::string::StringExecFns;

verus! {

/// The column-span attribute of a cell element: present only when the span
/// differs from one.
pub open spec fn colspan_attr(colspan: u32) -> Seq<char> {
    if colspan != 1 {
        " colspan="@ + dec_str(colspan as nat)
    } else {
        Seq::empty()
    }
}

/// The row-span attribute of a cell element: present only when the span
/// differs from one.
pub open spec fn rowspan_attr(rowspan: u32) -> Seq<char> {
    if rowspan != 1 {
        " rowspan="@ + dec_str(rowspan as nat)
    } else {
        Seq::empty()
    }
}

/// The markup one cell contributes: an empty cell element, an occupied cell
/// element with its span attributes and rendered value, or nothing at all for
/// a shadowed position (it is covered by its anchor's span attributes).
pub open spec fn cell_markup<T>(cell: Cell<T>, rend: Seq<char>) -> Seq<char> {
    match cell {
        Cell::Empty => "<td></td>"@,
        Cell::Occupied { value: _, colspan, rowspan } => "<td"@ + colspan_attr(colspan)
            + rowspan_attr(rowspan) + ">"@ + rend + "</td>\n"@,
        Cell::Shadowed { .. } => Seq::empty(),
    }
}

/// The markup of the first `upto` cells of row `row`.
pub open spec fn row_markup<T>(
    cells: Seq<Cell<T>>,
    rend: Seq<Seq<char>>,
    cols: int,
    row: int,
    upto: int,
) -> Seq<char>
    decreases upto,
{
    if upto <= 0 {
        Seq::empty()
    } else {
        row_markup(cells, rend, cols, row, upto - 1) + cell_markup(
            cells[row * cols + (upto - 1)],
            rend[row * cols + (upto - 1)],
        )
    }
}

/// The markup of the first `upto` rows, each wrapped in a row element.
pub open spec fn rows_markup<T>(
    cells: Seq<Cell<T>>,
    rend: Seq<Seq<char>>,
    cols: int,
    upto: int,
) -> Seq<char>
    decreases upto,
{
    if upto <= 0 {
        Seq::empty()
    } else {
        rows_markup(cells, rend, cols, upto - 1) + "<tr>\n"@ + row_markup(
            cells,
            rend,
            cols,
            upto - 1,
            cols,
        ) + "</tr>\n"@
    }
}

/// The whole fragment: a table element holding a body with one row element
/// per grid row, or nothing when either dimension is zero. `rend` gives the
/// rendered text of each cell by flat index.
pub open spec fn table_markup<T>(t: Table<T>, rend: Seq<Seq<char>>) -> Seq<char> {
    if t.rows() == 0 || t.cols() == 0 {
        Seq::empty()
    } else {
        "<table>\n"@ + "<tbody>\n"@ + rows_markup(t.cells_seq(), rend, t.cols(), t.rows())
            + "</tbody>\n"@ + "</table>\n"@
    }
}

impl<T> Table<T> {
    /// Renders the grid as an HTML table fragment, using `format_cell` to
    /// render each occupied value, and returns the fragment. Occupied cells
    /// carry `colspan`/`rowspan` attributes only for spans other than one,
    /// in that order; shadowed cells emit no element; an empty grid renders
    /// nothing.
    pub fn format_html<F: Fn(&T) -> String>(&self, format_cell: F) -> (out: String)
        requires
            self.wf(),
            forall|i: int|
                0 <= i < self.cells_seq().len()
                    ==> (#[trigger] self.cells_seq()[i] matches Cell::Occupied { value, .. }
                    ==> call_requires(format_cell, (&value,))),
        ensures
            exists|rend: Seq<String>|
                {
                    &&& (#[trigger] rend.len()) == self.cells_seq().len()
                    &&& (forall|i: int|
                        0 <= i < self.cells_seq().len()
                            ==> (#[trigger] self.cells_seq()[i] matches Cell::Occupied {
                            value,
                            ..
                        } ==> call_ensures(format_cell, (&value,), rend[i])))
                    &&& out@ == table_markup(*self, rend.map_values(|s: String| s@))
                },
    {
        let (rows, cols) = self.size();
        let mut rendered: Vec<String> = Vec::new();
        let mut r: u32 = 0;
        while r < rows
            invariant
                self.wf(),
                forall|i: int|
                    0 <= i < self.cells_seq().len()
                        ==> (#[trigger] self.cells_seq()[i] matches Cell::Occupied { value, .. }
                        ==> call_requires(format_cell, (&value,))),
                0 <= r <= rows,
                rows as int == self.rows(),
                cols as int == self.cols(),
                rendered@.len() == r * cols,
                forall|k: int|
                    0 <= k < rendered@.len()
                        ==> (#[trigger] self.cells_seq()[k] matches Cell::Occupied { value, .. }
                        ==> call_ensures(format_cell, (&value,), rendered@[k])),
            decreases rows - r,
        {
            proof {
                lemma_mul_step(r as int, cols as int);
                lemma_mul_mono(r as int + 1, rows as int, cols as int);
            }
            let mut c: u32 = 0;
            while c < cols
                invariant
                    self.wf(),
                    forall|i: int|
                        0 <= i < self.cells_seq().len()
                            ==> (#[trigger] self.cells_seq()[i] matches Cell::Occupied { value, .. }
                            ==> call_requires(format_cell, (&value,))),
                    0 <= r < rows,
                    0 <= c <= cols,
                    rows as int == self.rows(),
                    cols as int == self.cols(),
                    (r + 1) * cols == r * cols + cols,
                    (r + 1) * cols <= rows * cols,
                    rendered@.len() == r * cols + c,
                    forall|k: int|
                        0 <= k < rendered@.len()
                            ==> (#[trigger] self.cells_seq()[k] matches Cell::Occupied {
                            value,
                            ..
                        } ==> call_ensures(format_cell, (&value,), rendered@[k])),
                decreases cols - c,
            {
                proof {
                    lemma_index_bounds(r as int, c as int, self.rows(), self.cols());
                }
                match self.cell_ref(r, c) {
                    Cell::Occupied { value, colspan: _, rowspan: _ } => {
                        let s = format_cell(value);
                        rendered.push(s);
                    },
                    _ => {
                        rendered.push(String::new());
                    },
                }
                c += 1;
            }
            r += 1;
        }
        let ghost rendv = rendered@.map_values(|s: String| s@);
        let mut out = String::new();
        if rows == 0 || cols == 0 {
            proof {
                let nr = self.rows();
                let nc = self.cols();
                assert(nr * nc == 0) by (nonlinear_arith)
                    requires
                        nr == 0 || nc == 0,
                ;
                assert(self.cells_seq().len() == 0);
                assert(rendered@.len() == self.cells_seq().len());
                assert(out@ == table_markup(*self, rendv));
            }
            return out;
        }
        out.append("<table>\n");
        out.append("<tbody>\n");
        proof {
            assert(out@ =~= "<table>\n"@ + "<tbody>\n"@ + rows_markup(
                self.cells_seq(),
                rendv,
                self.cols(),
                0,
            ));
        }
        let mut r: u32 = 0;
        while r < rows
            invariant
                self.wf(),
                0 <= r <= rows,
                0 < rows,
                0 < cols,
                rows as int == self.rows(),
                cols as int == self.cols(),
                rendered@.len() == rows * cols,
                rendv == rendered@.map_values(|s: String| s@),
                out@ == "<table>\n"@ + "<tbody>\n"@ + rows_markup(
                    self.cells_seq(),
                    rendv,
                    self.cols(),
                    r as int,
                ),
            decreases rows - r,
        {
            proof {
                lemma_mul_step(r as int, cols as int);
                lemma_mul_mono(r as int + 1, rows as int, cols as int);
            }
            out.append("<tr>\n");
            proof {
                assert(out@ =~= "<table>\n"@ + "<tbody>\n"@ + rows_markup(
                    self.cells_seq(),
                    rendv,
                    self.cols(),
                    r as int,
                ) + "<tr>\n"@ + row_markup(self.cells_seq(), rendv, self.cols(), r as int, 0));
            }
            let mut c: u32 = 0;
            while c < cols
                invariant
                    self.wf(),
                    0 <= r < rows,
                    0 <= c <= cols,
                    rows as int == self.rows(),
                    cols as int == self.cols(),
                    (r + 1) * cols == r * cols + cols,
                    (r + 1) * cols <= rows * cols,
                    rendered@.len() == rows * cols,
                    rendv == rendered@.map_values(|s: String| s@),
                    out@ == "<table>\n"@ + "<tbody>\n"@ + rows_markup(
                        self.cells_seq(),
                        rendv,
                        self.cols(),
                        r as int,
                    ) + "<tr>\n"@ + row_markup(
                        self.cells_seq(),
                        rendv,
                        self.cols(),
                        r as int,
                        c as int,
                    ),
                decreases cols - c,
            {
                proof {
                    lemma_index_bounds(r as int, c as int, self.rows(), self.cols());
                    assert(self.cols() * (r as int) == (r as int) * self.cols())
                        by (nonlinear_arith);
                }
                // One rendering per cell, so the flat index fits in usize.
                let _ = rendered.len();
                let idx: usize = (cols as usize) * (r as usize) + (c as usize);
                let ghost pre = out@;
                let ghost i = r as int * self.cols() + c as int;
                match self.cell_ref(r, c) {
                    Cell::Empty => {
                        out.append("<td></td>");
                    },
                    Cell::Occupied { value: _, colspan, rowspan } => {
                        out.append("<td");
                        if *colspan != 1 {
                            out.append(" colspan=");
                            push_dec(&mut out, *colspan);
                        }
                        if *rowspan != 1 {
                            out.append(" rowspan=");
                            push_dec(&mut out, *rowspan);
                        }
                        out.append(">");
                        out.append(rendered[idx].as_str());
                        out.append("</td>\n");
                    },
                    Cell::Shadowed { .. } => {},
                }
                proof {
                    assert(rendv[i] == rendered@[i]@);
                    assert(out@ =~= pre + cell_markup(self.cells_seq()[i], rendv[i]));
                    assert(out@ =~= "<table>\n"@ + "<tbody>\n"@ + rows_markup(
                        self.cells_seq(),
                        rendv,
                        self.cols(),
                        r as int,
                    ) + "<tr>\n"@ + row_markup(
                        self.cells_seq(),
                        rendv,
                        self.cols(),
                        r as int,
                        c as int + 1,
                    ));
                }
                c += 1;
            }
            out.append("</tr>\n");
            proof {
                assert(out@ =~= "<table>\n"@ + "<tbody>\n"@ + rows_markup(
                    self.cells_seq(),
                    rendv,
                    self.cols(),
                    r as int + 1,
                ));
            }
            r += 1;
        }
        out.append("</tbody>\n");
        out.append("</table>\n");
        proof {
            assert(out@ =~= table_markup(*self, rendv));
            assert(rendered@.len() == self.cells_seq().len());
        }
        out
    }
}

} // verus!
