//! Structural laws of the grid: anchor/shadow consistency, when placement
//! preserves it, and round-trip facts about the transforms.

use vstd::prelude::*;

use crate::cell::Cell;
use crate::table::Table;
use crate::table::grown_dim;
use crate::table::in_old_span;
use crate::table::in_rect;
use crate::table::map_cell_related;
use crate::table::placed_cell;

verus! {

/// Every shadow references an in-bounds occupied anchor whose span rectangle
/// contains the shadow's own position: no shadow dangles.
pub open spec fn shadows_consistent<T>(t: Table<T>) -> bool {
    forall|r: int, c: int|
        t.in_bounds(r, c) ==> match #[trigger] t.cell_at(r, c) {
            Cell::Shadowed { col, row } => {
                &&& t.in_bounds(row as int, col as int)
                &&& (t.cell_at(row as int, col as int) matches Cell::Occupied {
                    value: _,
                    colspan,
                    rowspan,
                } && in_rect(r, c, row as int, col as int, rowspan as int, colspan as int))
            },
            _ => true,
        }
}

/// Every position of an occupied span other than its anchor is shadowed by
/// exactly that anchor, so no position is claimed by two spans.
pub open spec fn spans_exclusive<T>(t: Table<T>) -> bool {
    forall|ar: int, ac: int, r: int, c: int|
        t.in_bounds(ar, ac) && t.in_bounds(r, c) && !(r == ar && c == ac) && ((
        #[trigger] t.cell_at(ar, ac)) matches Cell::Occupied { value: _, colspan, rowspan }
            && in_rect(r, c, ar, ac, rowspan as int, colspan as int)) ==> #[trigger] t.cell_at(r, c)
            == (Cell::<T>::Shadowed { col: ac as u32, row: ar as u32 })
}

/// Full anchor/shadow consistency.
pub open spec fn consistent<T>(t: Table<T>) -> bool {
    &&& shadows_consistent(t)
    &&& spans_exclusive(t)
}

/// A grid whose every cell is empty is consistent; in particular a freshly
/// constructed grid is.
pub proof fn lemma_all_empty_consistent<T>(t: Table<T>)
    requires
        forall|r: int, c: int| t.in_bounds(r, c) ==> #[trigger] t.cell_at(r, c) is Empty,
    ensures
        consistent(t),
{
}

/// Anchor/shadow consistency is preserved by a successful placement whose
/// rectangle claims no position of another span: each claimed position was
/// empty, outside the old grid, or part of the overwritten occupant's own
/// rectangle. (A placement that does overlap a foreign span silently
/// overwrites the overlapped cells and can leave shadows dangling.)
///
/// The hypotheses are exactly what `set_cell` ensures of a successful
/// placement of `value` at `(row, col)` turning `pre` into `post`.
pub proof fn lemma_set_cell_preserves_consistency<T>(
    pre: Table<T>,
    post: Table<T>,
    value: T,
    row: u32,
    col: u32,
    rowspan: u32,
    colspan: u32,
)
    requires
        pre.wf(),
        consistent(pre),
        rowspan >= 1,
        colspan >= 1,
        !(pre.cell_or_empty(row as int, col as int) is Shadowed),
        post.rows() == grown_dim(pre.rows(), row + rowspan),
        post.cols() == grown_dim(pre.cols(), col + colspan),
        forall|r: int, c: int|
            post.in_bounds(r, c) ==> #[trigger] post.cell_at(r, c) == placed_cell(
                pre,
                value,
                row,
                col,
                rowspan,
                colspan,
                r,
                c,
            ),
        forall|r: int, c: int|
            in_rect(r, c, row as int, col as int, rowspan as int, colspan as int) && !(r == row && c
                == col) ==> (#[trigger] pre.cell_or_empty(r, c)) is Empty || in_old_span(
                pre,
                row as int,
                col as int,
                r,
                c,
            ),
    ensures
        consistent(post),
{
    assert forall|r: int, c: int| post.in_bounds(r, c) implies match #[trigger] post.cell_at(r, c) {
        Cell::Shadowed { col: sc, row: sr } => {
            &&& post.in_bounds(sr as int, sc as int)
            &&& (post.cell_at(sr as int, sc as int) matches Cell::Occupied {
                value: _,
                colspan: cs,
                rowspan: rs,
            } && in_rect(r, c, sr as int, sc as int, rs as int, cs as int))
        },
        _ => true,
    } by {
        match post.cell_at(r, c) {
            Cell::Shadowed { col: sc, row: sr } => {
            if in_rect(r, c, row as int, col as int, rowspan as int, colspan as int) {
                assert(sc == col && sr == row);
                assert(post.cell_at(row as int, col as int) == placed_cell(
                    pre,
                    value,
                    row,
                    col,
                    rowspan,
                    colspan,
                    row as int,
                    col as int,
                ));
            } else {
                assert(post.cell_at(r, c) == pre.cell_or_empty(r, c));
                assert(pre.in_bounds(r, c));
                assert(pre.cell_at(r, c) == (Cell::<T>::Shadowed { col: sc, row: sr }));
                assert(pre.in_bounds(sr as int, sc as int));
                let acell = pre.cell_at(sr as int, sc as int);
                assert(acell matches Cell::Occupied { value: _, colspan: cs, rowspan: rs }
                    && in_rect(r, c, sr as int, sc as int, rs as int, cs as int));
                assert(!(sr == row && sc == col));
                if in_rect(sr as int, sc as int, row as int, col as int, rowspan as int, colspan as int) {
                    assert(pre.cell_or_empty(sr as int, sc as int) is Empty || in_old_span(
                        pre,
                        row as int,
                        col as int,
                        sr as int,
                        sc as int,
                    ));
                    assert(false);
                }
                if in_old_span(pre, row as int, col as int, sr as int, sc as int) {
                    assert(pre.cell_at(sr as int, sc as int) == (Cell::<T>::Shadowed {
                        col,
                        row,
                    }));
                    assert(false);
                }
                assert(post.cell_at(sr as int, sc as int) == pre.cell_or_empty(
                    sr as int,
                    sc as int,
                ));
            }
            },
            _ => {},
        }
    }
    assert forall|ar: int, ac: int, r: int, c: int|
        post.in_bounds(ar, ac) && post.in_bounds(r, c) && !(r == ar && c == ac) && ((
        #[trigger] post.cell_at(ar, ac)) matches Cell::Occupied {
            value: _,
            colspan: cs,
            rowspan: rs,
        } && in_rect(r, c, ar, ac, rs as int, cs as int)) implies #[trigger] post.cell_at(r, c)
        == (Cell::<T>::Shadowed { col: ac as u32, row: ar as u32 }) by {
        if ar == row && ac == col {
            assert(post.cell_at(r, c) == placed_cell(pre, value, row, col, rowspan, colspan, r, c));
        } else {
            assert(post.cell_at(ar, ac) == pre.cell_or_empty(ar, ac));
            assert(pre.in_bounds(ar, ac));
            let acell = pre.cell_at(ar, ac);
            assert(acell is Occupied);
            assert(pre.in_bounds(r, c)) by {
                assert(pre.spans_ok());
                assert(pre.cell_at(ar, ac) == acell);
            }
            assert(pre.cell_at(r, c) == (Cell::<T>::Shadowed { col: ac as u32, row: ar as u32 }));
            if r == row && c == col {
                assert(false);
            }
            if in_rect(r, c, row as int, col as int, rowspan as int, colspan as int) {
                assert(pre.cell_or_empty(r, c) is Empty || in_old_span(
                    pre,
                    row as int,
                    col as int,
                    r,
                    c,
                ));
                if in_old_span(pre, row as int, col as int, r, c) {
                    assert(pre.cell_at(r, c) == (Cell::<T>::Shadowed { col, row }));
                    assert(ac == col && ar == row);
                }
                assert(false);
            }
            if in_old_span(pre, row as int, col as int, r, c) {
                assert(pre.cell_at(r, c) == (Cell::<T>::Shadowed { col, row }));
                assert(ac == col && ar == row);
                assert(false);
            }
            assert(post.cell_at(r, c) == pre.cell_or_empty(r, c));
        }
    }
}

/// Mapping with a value-preserving function is a round trip: the result is
/// cell-for-cell identical to the source (same shape, same variants, same
/// spans, same shadow references, same values).
pub proof fn lemma_map_identity_round_trip<T, F: Fn(T) -> T>(t: Table<T>, m: Table<T>, f: F)
    requires
        m.rows() == t.rows(),
        m.cols() == t.cols(),
        m.cells_seq().len() == t.cells_seq().len(),
        forall|a: T, b: T| call_ensures(f, (a,), b) ==> b == a,
        forall|i: int|
            0 <= i < t.cells_seq().len() ==> map_cell_related(
                t.cells_seq()[i],
                #[trigger] m.cells_seq()[i],
                f,
            ),
    ensures
        m.cells_seq() == t.cells_seq(),
{
    assert forall|i: int| 0 <= i < t.cells_seq().len() implies m.cells_seq()[i]
        == t.cells_seq()[i] by {
        assert(map_cell_related(t.cells_seq()[i], m.cells_seq()[i], f));
    }
    assert(m.cells_seq() =~= t.cells_seq());
}

/// Overwriting an occupant with a single-cell placement at the same anchor
/// leaves every other position of the old span rectangle `Empty`: none stays
/// behind as a shadow of the replaced occupant.
pub proof fn lemma_overwrite_clears_old_span<T>(
    pre: Table<T>,
    post: Table<T>,
    value: T,
    row: u32,
    col: u32,
)
    requires
        pre.cell_or_empty(row as int, col as int) is Occupied,
        forall|r: int, c: int|
            post.in_bounds(r, c) ==> #[trigger] post.cell_at(r, c) == placed_cell(
                pre,
                value,
                row,
                col,
                1u32,
                1u32,
                r,
                c,
            ),
    ensures
        forall|r: int, c: int|
            post.in_bounds(r, c) && in_old_span(pre, row as int, col as int, r, c) && !(r == row
                && c == col) ==> (#[trigger] post.cell_at(r, c)) is Empty,
        post.in_bounds(row as int, col as int) ==> post.cell_at(row as int, col as int)
            == (Cell::Occupied { value, colspan: 1u32, rowspan: 1u32 }),
{
}

/// Changing the stored value of an occupied anchor in place, as the mutable
/// value accessor does, touches no geometry and so preserves structural
/// well-formedness.
pub proof fn lemma_value_update_preserves_wf<T>(
    pre: Table<T>,
    post: Table<T>,
    row: u32,
    col: u32,
    v: T,
    colspan: u32,
    rowspan: u32,
)
    requires
        pre.wf(),
        pre.in_bounds(row as int, col as int),
        pre.cell_at(row as int, col as int) matches Cell::Occupied {
            value: _,
            colspan: cs0,
            rowspan: rs0,
        } && cs0 == colspan && rs0 == rowspan,
        post.rows() == pre.rows(),
        post.cols() == pre.cols(),
        post.cells_seq() == pre.cells_seq().update(
            row as int * pre.cols() + col as int,
            Cell::Occupied { value: v, colspan, rowspan },
        ),
    ensures
        post.wf(),
{
    crate::table::lemma_index_bounds(row as int, col as int, pre.rows(), pre.cols());
    assert forall|r: int, c: int|
        post.in_bounds(r, c) implies match #[trigger] post.cell_at(r, c) {
        Cell::Occupied { value: _, colspan: cs, rowspan: rs } => r + rs <= post.rows() && c + cs
            <= post.cols(),
        _ => true,
    } by {
        crate::table::lemma_index_bounds(r, c, post.rows(), post.cols());
        if !(r == row && c == col) {
            crate::table::lemma_index_injective(r, c, row as int, col as int, post.cols());
            assert(post.cell_at(r, c) == pre.cell_at(r, c));
        }
    }
}

} // verus!
