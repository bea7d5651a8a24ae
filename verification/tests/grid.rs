use spantable::Cell;
use spantable::Error;
use spantable::Table;

/// Whether the position can be freshly placed into: `Ok(None)` from a 1x1
/// placement on a clone means the cell was `Empty` (and not shadowed).
fn probe_empty(t: &Table<String>, row: u32, col: u32) -> bool {
    let mut c = t.clone();
    matches!(c.set_cell(String::from("probe"), row, col, 1, 1), Ok(None))
}

/// The anchor coordinates blocking the position, if it is shadowed.
fn probe_shadow(t: &Table<String>, row: u32, col: u32) -> Option<(u32, u32)> {
    let mut c = t.clone();
    match c.set_cell(String::from("probe"), row, col, 1, 1) {
        Err(Error::Shadowed { col, row }) => Some((row, col)),
        _ => None,
    }
}

fn render(t: &Table<String>) -> String {
    t.format_html(|v: &String| v.clone())
}

#[test]
fn new_and_empty_shapes() {
    let t: Table<String> = Table::new();
    assert_eq!(t.size(), (0, 0));
    let e: Table<String> = Table::empty(3, 4);
    assert_eq!(e.size(), (3, 4));
    assert!(e.values().is_empty());
}

#[test]
fn growth_from_nothing() {
    // Placing at (2, 3) with a 1x1 span grows an empty grid to 3x4.
    let mut t: Table<String> = Table::new();
    let res = t.set_cell(String::from("A"), 2, 3, 1, 1);
    assert!(matches!(res, Ok(None)));
    assert_eq!(t.size(), (3, 4));
    let vals = t.values();
    assert_eq!(vals.len(), 1);
    assert_eq!(vals[0].value, "A");
    assert_eq!((vals[0].row, vals[0].col), (2, 3));
    assert_eq!((vals[0].rowspan, vals[0].colspan), (1, 1));
    // All other 11 positions are empty.
    for r in 0..3 {
        for c in 0..4 {
            if (r, c) != (2, 3) {
                assert!(probe_empty(&t, r, c), "({r},{c}) should be empty");
            }
        }
    }
}

#[test]
fn span_shadows_and_rendering() {
    let mut t: Table<String> = Table::empty(3, 4);
    assert!(matches!(t.set_cell(String::from("B"), 0, 0, 2, 2), Ok(None)));
    assert_eq!(t.size(), (3, 4));
    for (r, c) in [(0, 1), (1, 0), (1, 1)] {
        assert_eq!(probe_shadow(&t, r, c), Some((0, 0)));
    }
    let html = render(&t);
    let expected = "<table>\n<tbody>\n\
        <tr>\n<td colspan=2 rowspan=2>B</td>\n<td></td><td></td></tr>\n\
        <tr>\n<td></td><td></td></tr>\n\
        <tr>\n<td></td><td></td><td></td><td></td></tr>\n\
        </tbody>\n</table>\n";
    assert_eq!(html, expected);
}

#[test]
fn overwrite_clears_old_span() {
    // Shrinking a 2x2 occupant to 1x1 empties the three shadowed positions.
    let mut t: Table<String> = Table::empty(3, 4);
    assert!(matches!(t.set_cell(String::from("B"), 0, 0, 2, 2), Ok(None)));
    let res = t.set_cell(String::from("C"), 0, 0, 1, 1);
    match res {
        Ok(Some(old)) => assert_eq!(old, "B"),
        other => panic!("expected the old value back, got {other:?}"),
    }
    for (r, c) in [(0, 1), (1, 0), (1, 1)] {
        assert!(probe_empty(&t, r, c), "({r},{c}) should be empty again");
    }
    let vals = t.values();
    assert_eq!(vals.len(), 1);
    assert_eq!(vals[0].value, "C");
    assert_eq!((vals[0].rowspan, vals[0].colspan), (1, 1));
}

#[test]
fn conflict_is_rejected_and_changes_nothing() {
    let mut t: Table<String> = Table::empty(3, 4);
    assert!(matches!(t.set_cell(String::from("B"), 0, 0, 2, 2), Ok(None)));
    let before = render(&t);
    let res = t.set_cell(String::from("D"), 0, 1, 1, 1);
    assert!(matches!(res, Err(Error::Shadowed { col: 0, row: 0 })));
    assert_eq!(t.size(), (3, 4));
    assert_eq!(render(&t), before);
}

#[test]
fn conflict_with_growth_needed_changes_nothing() {
    // Even when the requested rectangle would grow the grid, a shadowed
    // anchor rejects the placement without growing it.
    let mut t: Table<String> = Table::empty(3, 4);
    assert!(matches!(t.set_cell(String::from("B"), 0, 0, 2, 2), Ok(None)));
    let before = render(&t);
    let res = t.set_cell(String::from("D"), 1, 1, 9, 9);
    assert!(matches!(res, Err(Error::Shadowed { col: 0, row: 0 })));
    assert_eq!(t.size(), (3, 4));
    assert_eq!(render(&t), before);
}

#[test]
fn growth_is_monotone() {
    let mut t: Table<String> = Table::new();
    let mut last = (0u32, 0u32);
    for (r, c, rs, cs) in [(2, 3, 1, 1), (0, 0, 1, 1), (1, 1, 3, 2), (0, 5, 1, 1), (1, 0, 1, 1)] {
        let _ = t.set_cell(String::from("x"), r, c, rs, cs);
        let now = t.size();
        assert!(now.0 >= last.0 && now.1 >= last.1, "grid shrank: {last:?} -> {now:?}");
        last = now;
    }
    assert_eq!(last, (4, 6));
}

#[test]
fn map_identity_round_trip() {
    let mut t: Table<String> = Table::empty(3, 4);
    let _ = t.set_cell(String::from("B"), 0, 0, 2, 2);
    let _ = t.set_cell(String::from("A"), 2, 3, 1, 1);
    let before = render(&t);
    let shadows = [(0u32, 1u32), (1, 0), (1, 1)];
    let m = t.map(|v| v);
    assert_eq!(m.size(), (3, 4));
    assert_eq!(render(&m), before);
    for (r, c) in shadows {
        assert_eq!(probe_shadow(&m, r, c), Some((0, 0)));
    }
    let vals = m.values();
    assert_eq!(vals.len(), 2);
    assert_eq!(vals[0].value, "B");
    assert_eq!(vals[1].value, "A");
}

#[test]
fn map_transforms_values_only() {
    let mut t: Table<u32> = Table::empty(2, 2);
    let _ = t.set_cell(21, 0, 0, 1, 2);
    let m = t.map(|v| v * 2);
    assert_eq!(m.size(), (2, 2));
    let vals = m.values();
    assert_eq!(vals.len(), 1);
    assert_eq!(*vals[0].value, 42);
    assert_eq!((vals[0].rowspan, vals[0].colspan), (1, 2));
}

#[test]
fn values_row_major_order() {
    let mut t: Table<String> = Table::empty(3, 3);
    let _ = t.set_cell(String::from("c"), 2, 0, 1, 1);
    let _ = t.set_cell(String::from("a"), 0, 1, 1, 1);
    let _ = t.set_cell(String::from("b"), 1, 2, 1, 1);
    let vals = t.values();
    let seen: Vec<(u32, u32, &str)> = vals.iter().map(|v| (v.row, v.col, v.value.as_str())).collect();
    assert_eq!(seen, vec![(0, 1, "a"), (1, 2, "b"), (2, 0, "c")]);
}

#[test]
fn flat_map_keeps_and_drops() {
    let mut t: Table<String> = Table::empty(3, 4);
    let _ = t.set_cell(String::from("B"), 0, 0, 2, 2);
    let _ = t.set_cell(String::from("A"), 2, 3, 1, 1);
    // Drop "B" (a 2x2 span: both spans differ from one, so its shadows are
    // cleared) and keep "A".
    let m: Table<String> = t.flat_map(|v: &String| if v == "A" { Some(v.clone()) } else { None });
    assert_eq!(m.size(), (3, 4));
    let vals = m.values();
    assert_eq!(vals.len(), 1);
    assert_eq!(vals[0].value, "A");
    for (r, c) in [(0, 0), (0, 1), (1, 0), (1, 1)] {
        assert!(probe_empty(&m, r, c), "({r},{c}) should be empty after the drop");
    }
}

#[test]
fn flat_map_leaves_single_row_span_shadows() {
    // A dropped 1x3 occupant does not clear its shadows: only a span whose
    // row and column extents both differ from one is recorded as dropped.
    let mut t: Table<String> = Table::empty(2, 3);
    let _ = t.set_cell(String::from("B"), 0, 0, 1, 3);
    let m: Table<String> = t.flat_map(|_v: &String| None);
    assert_eq!(m.size(), (2, 3));
    assert!(m.values().is_empty());
    assert!(probe_empty(&m, 0, 0));
    assert_eq!(probe_shadow(&m, 0, 1), Some((0, 0)));
    assert_eq!(probe_shadow(&m, 0, 2), Some((0, 0)));
}

#[test]
fn get_cell_value_mut_paths() {
    let mut t: Table<String> = Table::empty(3, 4);
    let _ = t.set_cell(String::from("B"), 0, 0, 2, 2);
    // Occupied anchor: the value can be changed in place.
    {
        let v = t.get_cell_value_mut(0, 0).expect("anchor holds a value");
        v.push('!');
    }
    let vals = t.values();
    assert_eq!(vals[0].value, "B!");
    assert_eq!((vals[0].rowspan, vals[0].colspan), (2, 2));
    // Shadowed, empty and out-of-bounds positions yield no value.
    assert!(t.get_cell_value_mut(0, 1).is_none());
    assert!(t.get_cell_value_mut(2, 3).is_none());
    assert!(t.get_cell_value_mut(7, 7).is_none());
    // Out of bounds even where the flat row-major index would fall inside
    // the storage.
    assert!(t.get_cell_value_mut(0, 5).is_none());
}

#[test]
fn render_empty_grid_is_nothing() {
    let t: Table<String> = Table::new();
    assert_eq!(render(&t), "");
    let e: Table<String> = Table::empty(0, 4);
    assert_eq!(render(&e), "");
    let e2: Table<String> = Table::empty(4, 0);
    assert_eq!(render(&e2), "");
}

#[test]
fn render_span_attributes() {
    // colspan only, rowspan only, and multi-digit spans.
    let mut t: Table<String> = Table::new();
    let _ = t.set_cell(String::from("w"), 0, 0, 1, 3);
    let html = render(&t);
    assert_eq!(html, "<table>\n<tbody>\n<tr>\n<td colspan=3>w</td>\n</tr>\n</tbody>\n</table>\n");

    let mut v: Table<String> = Table::new();
    let _ = v.set_cell(String::from("h"), 0, 0, 3, 1);
    let html = render(&v);
    assert_eq!(
        html,
        "<table>\n<tbody>\n<tr>\n<td rowspan=3>h</td>\n</tr>\n<tr>\n</tr>\n<tr>\n</tr>\n</tbody>\n</table>\n"
    );

    let mut w: Table<String> = Table::new();
    let _ = w.set_cell(String::from("x"), 0, 0, 1, 12);
    assert!(render(&w).contains("<td colspan=12>x</td>"));
}

#[test]
fn error_message_names_the_anchor() {
    let e = Error::Shadowed { col: 3, row: 12 };
    assert_eq!(e.message(), "shadowed by cell at row 12, col 3");
    let mut t: Table<String> = Table::empty(2, 2);
    let _ = t.set_cell(String::from("B"), 0, 0, 2, 2);
    let err = t.set_cell(String::from("D"), 1, 1, 1, 1).unwrap_err();
    assert_eq!(err.message(), "shadowed by cell at row 0, col 0");
}

#[test]
fn overwrite_reshapes_span() {
    // Replacing a 2x2 occupant with a 1x2 occupant at the same anchor leaves
    // the second row of the old rectangle empty and shadows only (0, 1).
    let mut t: Table<String> = Table::empty(2, 2);
    let _ = t.set_cell(String::from("B"), 0, 0, 2, 2);
    let res = t.set_cell(String::from("C"), 0, 0, 1, 2);
    assert!(matches!(res, Ok(Some(_))));
    assert_eq!(probe_shadow(&t, 0, 1), Some((0, 0)));
    assert!(probe_empty(&t, 1, 0));
    assert!(probe_empty(&t, 1, 1));
}

#[test]
fn cell_variants_construct() {
    // The cell type itself is part of the public surface.
    let occupied: Cell<u32> = Cell::Occupied { value: 5, colspan: 2, rowspan: 1 };
    let empty: Cell<u32> = Cell::Empty;
    let shadowed: Cell<u32> = Cell::Shadowed { col: 1, row: 0 };
    assert!(matches!(occupied, Cell::Occupied { value: 5, colspan: 2, rowspan: 1 }));
    assert!(matches!(empty, Cell::Empty));
    assert!(matches!(shadowed, Cell::Shadowed { col: 1, row: 0 }));
}

#[test]
fn shadows_reference_live_anchors() {
    // After any sequence of non-overlapping placements, every shadowed
    // position names an anchor that actually holds a value whose span
    // covers it.
    let mut t: Table<String> = Table::empty(4, 4);
    let _ = t.set_cell(String::from("B"), 0, 0, 2, 2);
    let _ = t.set_cell(String::from("W"), 2, 0, 1, 3);
    let _ = t.set_cell(String::from("C"), 0, 2, 2, 1);
    let (rows, cols) = t.size();
    for r in 0..rows {
        for c in 0..cols {
            if let Some((ar, ac)) = probe_shadow(&t, r, c) {
                let mut probe = t.clone();
                let anchor = probe.get_cell_value_mut(ar, ac);
                assert!(anchor.is_some(), "shadow at ({r},{c}) dangles: anchor ({ar},{ac})");
                let anchored = t.values().into_iter().find(|v| v.row == ar && v.col == ac);
                let v = anchored.expect("anchor appears among the values");
                assert!(ar <= r && r < ar + v.rowspan && ac <= c && c < ac + v.colspan);
            }
        }
    }
}
