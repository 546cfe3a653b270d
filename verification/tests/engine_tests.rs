use sheet_engine::{
    CellFormat, CellRef, CellValue, FormulaError, Grid, GridPatch, CellUpdate, Num, SheetEngine,
};

fn num(i: i64) -> CellValue {
    CellValue::Number(Num::from_i64(i))
}

fn mantissa(m: i128) -> CellValue {
    CellValue::Number(Num::from_mantissa(m))
}

#[test]
fn test_cell_ref_parsing() {
    assert_eq!(CellRef::parse("A1"), Some(CellRef::new(0, 0)));
    assert_eq!(CellRef::parse("B2"), Some(CellRef::new(1, 1)));
    assert_eq!(CellRef::parse("Z26"), Some(CellRef::new(25, 25)));
    assert_eq!(CellRef::parse("AA1"), Some(CellRef::new(0, 26)));
}

#[test]
fn test_col_to_letter() {
    assert_eq!(CellRef::col_to_letter(0), "A");
    assert_eq!(CellRef::col_to_letter(25), "Z");
    assert_eq!(CellRef::col_to_letter(26), "AA");
    assert_eq!(CellRef::col_to_letter(27), "AB");
}

#[test]
fn test_cell_value_parsing() {
    assert_eq!(CellValue::parse(""), CellValue::Empty);
    assert_eq!(CellValue::parse("42"), num(42));
    assert_eq!(CellValue::parse("3.14"), mantissa(3_140_000_000));
    assert_eq!(CellValue::parse("true"), CellValue::Boolean(true));
    assert_eq!(CellValue::parse("Hello"), CellValue::Text("Hello".to_string()));
    assert_eq!(CellValue::parse("50%"), mantissa(500_000_000));
    assert_eq!(CellValue::parse("$100"), num(100));
}

#[test]
fn test_grid_basics() {
    let mut grid = Grid::new(1000, 100);

    grid.set_value(CellRef::new(0, 0), num(42)).unwrap();
    grid.set_value(CellRef::new(0, 1), CellValue::Text("Hello".to_string())).unwrap();

    assert_eq!(grid.cell_count(), 2);

    let cell = grid.get_cell(CellRef::new(0, 0)).unwrap();
    assert_eq!(cell.value, num(42));
}

#[test]
fn test_sparse_storage() {
    let mut grid = Grid::new(1_000_000, 1000);

    // Even with huge dimensions, an empty grid stores nothing.
    assert_eq!(grid.cell_count(), 0);

    grid.set_value(CellRef::new(999_999, 999), num(1)).unwrap();
    assert_eq!(grid.cell_count(), 1);
}

#[test]
fn test_reference_roundtrip() {
    let mut n: u32 = 0;
    while n < 1_000_000 {
        let letters = CellRef::col_to_letter(n);
        assert_eq!(CellRef::letter_to_col(&letters), Some(n));
        n += 1;
    }
}

#[test]
fn test_a1_roundtrip() {
    let refs = [
        CellRef::new(0, 0),
        CellRef::new(41, 54),
        CellRef::new(25, 25),
        CellRef::new(0, 26),
        CellRef::new(999_999, 16_383),
    ];
    for r in refs.iter() {
        assert_eq!(CellRef::parse(&r.to_a1()), Some(*r));
    }
}

#[test]
fn test_integer_display_has_no_point() {
    let mut n: i64 = -1_000_000_000_000_000;
    while n <= 1_000_000_000_000_000 {
        let shown = num(n).display();
        assert!(!shown.contains('.'), "{}", shown);
        n += 111_111_111_111_111;
    }
    assert_eq!(num(7).display(), "7");
    assert_eq!(num(-3).display(), "-3");
    assert_eq!(mantissa(2_500_000_000).display(), "2.5");
    assert_eq!(mantissa(-500_000_000).display(), "-0.5");
}

#[test]
fn test_sum_over_range() {
    let mut engine = SheetEngine::new(100, 100);
    engine.set_cell(0, 0, "10").unwrap();
    engine.set_cell(1, 0, "20").unwrap();
    engine.set_cell(2, 0, "=SUM(A1:A2)").unwrap();
    assert_eq!(engine.get_cell(2, 0).unwrap().display(), "30");
}

#[test]
fn test_precedence() {
    let mut engine = SheetEngine::new(10, 10);
    engine.set_cell(0, 0, "=1+2*3").unwrap();
    assert_eq!(engine.get_cell(0, 0).unwrap().display(), "7");
}

#[test]
fn test_parentheses() {
    let mut engine = SheetEngine::new(10, 10);
    engine.set_cell(0, 0, "=(1+2)*3").unwrap();
    assert_eq!(engine.get_cell(0, 0).unwrap().display(), "9");
}

#[test]
fn test_dependent_update_order() {
    let mut engine = SheetEngine::new(10, 10);
    engine.set_cell(0, 0, "5").unwrap();
    engine.set_cell(0, 1, "=A1*2").unwrap();
    assert_eq!(engine.get_cell(0, 1).unwrap().display(), "10");

    let diff = engine.set_cell(0, 0, "7").unwrap();
    assert_eq!(engine.get_cell(0, 1).unwrap().display(), "14");

    let pos_a1 = diff.cells.iter().position(|c| c.row == 0 && c.col == 0).unwrap();
    let pos_b1 = diff.cells.iter().position(|c| c.row == 0 && c.col == 1).unwrap();
    assert!(pos_a1 < pos_b1);
}

#[test]
fn test_division_by_zero_value() {
    let mut engine = SheetEngine::new(10, 10);
    engine.set_cell(0, 0, "=10/0").unwrap();
    let cell = engine.get_cell(0, 0).unwrap();
    assert_eq!(cell.value, CellValue::Error("DIV/0".to_string()));
    assert_eq!(cell.display(), "#DIV/0");
}

#[test]
fn test_conditional_with_comparison() {
    let mut engine = SheetEngine::new(10, 10);
    engine.set_cell(0, 0, "=IF(B1>0, \"pos\", \"neg\")").unwrap();
    engine.set_cell(0, 1, "-3").unwrap();
    assert_eq!(engine.get_cell(0, 0).unwrap().display(), "neg");
    engine.set_cell(0, 1, "4").unwrap();
    assert_eq!(engine.get_cell(0, 0).unwrap().display(), "pos");
}

#[test]
fn test_circular_reference_detected() {
    let mut engine = SheetEngine::new(10, 10);
    engine.set_cell(0, 0, "=A2").unwrap();
    let err = engine.set_cell(1, 0, "=A1").unwrap_err();
    assert!(matches!(err, FormulaError::CircularReference));
    // Neither computed value was updated from the staging pass.
    assert_eq!(engine.get_cell(0, 0).unwrap().value, CellValue::Empty);
    assert_eq!(engine.get_cell(1, 0).unwrap().value, CellValue::Empty);
    // The grid still answers ordinary edits afterwards.
    engine.set_cell(1, 0, "3").unwrap();
    assert_eq!(engine.get_cell(0, 0).unwrap().display(), "3");
}

#[test]
fn test_builtin_functions() {
    let mut engine = SheetEngine::new(10, 10);
    engine.set_cell(0, 0, "4").unwrap();
    engine.set_cell(1, 0, "9").unwrap();
    engine.set_cell(0, 1, "=AVERAGE(A1:A2)").unwrap();
    engine.set_cell(1, 1, "=MIN(A1:A2)").unwrap();
    engine.set_cell(2, 1, "=MAX(A1:A2)").unwrap();
    engine.set_cell(3, 1, "=COUNT(A1:A2)").unwrap();
    engine.set_cell(4, 1, "=ABS(0-8)").unwrap();
    engine.set_cell(5, 1, "=SQRT(9)").unwrap();
    engine.set_cell(6, 1, "=POWER(2,10)").unwrap();
    engine.set_cell(7, 1, "=ROUND(2.345, 2)").unwrap();
    engine.set_cell(8, 1, "=2^3").unwrap();
    assert_eq!(engine.get_cell(0, 1).unwrap().display(), "6.5");
    assert_eq!(engine.get_cell(1, 1).unwrap().display(), "4");
    assert_eq!(engine.get_cell(2, 1).unwrap().display(), "9");
    assert_eq!(engine.get_cell(3, 1).unwrap().display(), "2");
    assert_eq!(engine.get_cell(4, 1).unwrap().display(), "8");
    assert_eq!(engine.get_cell(5, 1).unwrap().display(), "3");
    assert_eq!(engine.get_cell(6, 1).unwrap().display(), "1024");
    assert_eq!(engine.get_cell(7, 1).unwrap().display(), "2.35");
    assert_eq!(engine.get_cell(8, 1).unwrap().display(), "8");
}

#[test]
fn test_concat_and_comparisons() {
    let mut engine = SheetEngine::new(10, 10);
    engine.set_cell(0, 0, "ab").unwrap();
    engine.set_cell(0, 1, "=A1&\"cd\"").unwrap();
    assert_eq!(engine.get_cell(0, 1).unwrap().display(), "abcd");
    engine.set_cell(1, 0, "=2<=2").unwrap();
    assert_eq!(engine.get_cell(1, 0).unwrap().display(), "TRUE");
    engine.set_cell(2, 0, "=2<>2").unwrap();
    assert_eq!(engine.get_cell(2, 0).unwrap().display(), "FALSE");
    engine.set_cell(3, 0, "=\"x\"=\"x\"").unwrap();
    assert_eq!(engine.get_cell(3, 0).unwrap().display(), "TRUE");
    // Ordering on non-numbers is false, not an error.
    engine.set_cell(4, 0, "=\"x\"<1").unwrap();
    assert_eq!(engine.get_cell(4, 0).unwrap().display(), "FALSE");
}

#[test]
fn test_error_variants() {
    let mut engine = SheetEngine::new(10, 10);
    assert!(matches!(
        engine.set_cell(0, 0, "=NOSUCH(1)").unwrap_err(),
        FormulaError::UnknownFunction(_)
    ));
    assert!(matches!(
        engine.set_cell(0, 0, "=ABS(1,2)").unwrap_err(),
        FormulaError::ArgumentCount { .. }
    ));
    assert!(matches!(
        engine.set_cell(0, 0, "=)(").unwrap_err(),
        FormulaError::Parse(_)
    ));
    assert!(matches!(
        engine.set_cell(99, 0, "1").unwrap_err(),
        FormulaError::Grid(_)
    ));
}

#[test]
fn test_empty_removes_cell() {
    let mut grid = Grid::new(10, 10);
    grid.set_value(CellRef::new(2, 3), num(5)).unwrap();
    assert_eq!(grid.cell_count(), 1);
    grid.set_value(CellRef::new(2, 3), CellValue::Empty).unwrap();
    assert_eq!(grid.cell_count(), 0);
    assert!(grid.get_cell(CellRef::new(2, 3)).is_none());
    // Emptying an absent cell changes nothing.
    grid.set_value(CellRef::new(2, 3), CellValue::Empty).unwrap();
    assert_eq!(grid.cell_count(), 0);
}

#[test]
fn test_format_merge() {
    let mut grid = Grid::new(10, 10);
    let mut f1 = CellFormat::empty();
    f1.font_bold = Some(true);
    f1.font_size = Some(12);
    grid.set_format(CellRef::new(0, 0), f1).unwrap();
    let mut f2 = CellFormat::empty();
    f2.font_italic = Some(true);
    f2.font_size = Some(14);
    grid.set_format(CellRef::new(0, 0), f2).unwrap();
    let cell = grid.get_cell(CellRef::new(0, 0)).unwrap();
    let fmt = cell.format.as_ref().unwrap();
    assert_eq!(fmt.font_bold, Some(true));
    assert_eq!(fmt.font_italic, Some(true));
    assert_eq!(fmt.font_size, Some(14));
}

#[test]
fn test_get_range() {
    let mut engine = SheetEngine::new(10, 10);
    engine.set_cell(0, 0, "1").unwrap();
    engine.set_cell(1, 0, "2").unwrap();
    engine.set_cell(5, 5, "9").unwrap();
    let data = engine.get_range(0, 0, 2, 2);
    assert_eq!(data.len(), 2);
    assert_eq!(data[0].value, "1");
    assert_eq!(data[1].value, "2");
}

#[test]
fn test_apply_patch() {
    let mut engine = SheetEngine::new(10, 10);
    let patch = GridPatch {
        updates: vec![
            CellUpdate { row: 0, col: 0, value: Some("3".to_string()), formula: None },
            CellUpdate { row: 1, col: 0, value: None, formula: Some("=A1+1".to_string()) },
            CellUpdate { row: 2, col: 0, value: None, formula: None },
        ],
    };
    let diff = engine.apply_patch(&patch).unwrap();
    assert_eq!(engine.get_cell(1, 0).unwrap().display(), "4");
    assert!(diff.cells.iter().any(|c| c.row == 1 && c.col == 0));
}

#[test]
fn test_widths_and_heights() {
    let mut engine = SheetEngine::new(10, 10);
    assert_eq!(engine.get_col_width(3), 100);
    assert_eq!(engine.get_row_height(3), 24);
    engine.set_col_width(3, 150);
    engine.set_row_height(3, 40);
    assert_eq!(engine.get_col_width(3), 150);
    assert_eq!(engine.get_row_height(3), 40);
    engine.set_col_width(3, 100);
    assert_eq!(engine.get_col_width(3), 100);
}

#[test]
fn test_literal_edit_drops_formula() {
    let mut engine = SheetEngine::new(10, 10);
    engine.set_cell(0, 0, "=1+1").unwrap();
    assert_eq!(engine.get_cell(0, 0).unwrap().display(), "2");
    engine.set_cell(0, 0, "5").unwrap();
    let cell = engine.get_cell(0, 0).unwrap();
    assert!(cell.formula.is_none());
    assert_eq!(cell.display(), "5");
    // A later edit elsewhere must not resurrect the dropped formula.
    engine.set_cell(1, 0, "1").unwrap();
    assert_eq!(engine.get_cell(0, 0).unwrap().display(), "5");
}

#[test]
fn test_number_formula_literals() {
    let mut engine = SheetEngine::new(10, 10);
    engine.set_cell(0, 0, "=1.5+2.25").unwrap();
    assert_eq!(engine.get_cell(0, 0).unwrap().display(), "3.75");
    engine.set_cell(1, 0, "=10/4").unwrap();
    assert_eq!(engine.get_cell(1, 0).unwrap().display(), "2.5");
}

#[test]
fn test_records_roundtrip() {
    let mut grid = Grid::new(100, 100);
    grid.set_value(CellRef::new(0, 0), num(42)).unwrap();
    grid.set_value(CellRef::new(7, 3), CellValue::Text("hi".to_string())).unwrap();
    grid.set_value(CellRef::new(2, 3), CellValue::Boolean(true)).unwrap();

    let records = grid.to_records();
    let restored = Grid::from_records(100, 100, &records).unwrap();

    assert_eq!(restored.cell_count(), 3);
    assert_eq!(restored.get_cell(CellRef::new(0, 0)).unwrap().value, num(42));
    assert_eq!(
        restored.get_cell(CellRef::new(7, 3)).unwrap().value,
        CellValue::Text("hi".to_string())
    );
    assert_eq!(
        restored.get_cell(CellRef::new(2, 3)).unwrap().value,
        CellValue::Boolean(true)
    );
    assert!(restored.get_cell(CellRef::new(1, 1)).is_none());
}

#[test]
fn test_range_keeps_storage_order() {
    let mut grid = Grid::new(10, 10);
    grid.set_value(CellRef::new(2, 0), num(3)).unwrap();
    grid.set_value(CellRef::new(0, 0), num(1)).unwrap();
    let data = grid.get_range(0, 0, 9, 9);
    // Cells come out in storage (insertion) order within the column.
    assert_eq!(data.len(), 2);
    assert_eq!(data[0].row, 2);
    assert_eq!(data[1].row, 0);
}

#[test]
fn test_duplicate_dependencies() {
    let mut engine = SheetEngine::new(10, 10);
    engine.set_cell(0, 0, "2").unwrap();
    engine.set_cell(0, 1, "=A1+A1").unwrap();
    assert_eq!(engine.get_cell(0, 1).unwrap().display(), "4");
    engine.set_cell(0, 0, "5").unwrap();
    assert_eq!(engine.get_cell(0, 1).unwrap().display(), "10");
}

#[test]
fn test_formula_replacement_updates_edges() {
    let mut engine = SheetEngine::new(10, 10);
    engine.set_cell(0, 0, "1").unwrap();
    engine.set_cell(1, 0, "2").unwrap();
    engine.set_cell(2, 0, "=A1").unwrap();
    assert_eq!(engine.get_cell(2, 0).unwrap().display(), "1");
    // Replacing the formula wholesale drops the old incoming edge.
    engine.set_cell(2, 0, "=A2").unwrap();
    assert_eq!(engine.get_cell(2, 0).unwrap().display(), "2");
    engine.set_cell(0, 0, "9").unwrap();
    assert_eq!(engine.get_cell(2, 0).unwrap().display(), "2");
}

#[test]
fn test_fatal_edit_rolls_back() {
    let mut engine = SheetEngine::new(10, 10);
    engine.set_cell(0, 0, "5").unwrap();
    // A user-input error during recalculation leaves the cell untouched.
    assert!(matches!(
        engine.set_cell(0, 0, "=NOSUCH(1)").unwrap_err(),
        FormulaError::UnknownFunction(_)
    ));
    let cell = engine.get_cell(0, 0).unwrap();
    assert!(cell.formula.is_none());
    assert_eq!(cell.display(), "5");
    // The rolled-back state still recalculates normally.
    engine.set_cell(0, 1, "=A1+1").unwrap();
    assert_eq!(engine.get_cell(0, 1).unwrap().display(), "6");
    // And the same fatal edit on a fresh cell leaves it absent.
    assert!(engine.set_cell(2, 2, "=NOSUCH(1)").is_err());
    assert!(engine.get_cell(2, 2).is_none());
}

#[test]
fn test_patch_parse_error_keeps_prefix() {
    let mut engine = SheetEngine::new(10, 10);
    let patch = GridPatch {
        updates: vec![
            CellUpdate { row: 0, col: 0, value: Some("3".to_string()), formula: None },
            CellUpdate { row: 1, col: 0, value: None, formula: Some("=)(".to_string()) },
        ],
    };
    let err = engine.apply_patch(&patch).unwrap_err();
    assert!(matches!(
        err,
        sheet_engine::GridError::Formula(FormulaError::Parse(_))
    ));
    // The earlier update stays applied; the failing update's cell is
    // untouched and nothing was recomputed.
    assert_eq!(engine.get_cell(0, 0).unwrap().display(), "3");
    assert!(engine.get_cell(1, 0).is_none());
}

#[test]
fn test_patch_out_of_bounds_rejected() {
    let mut engine = SheetEngine::new(10, 10);
    let patch = GridPatch {
        updates: vec![
            CellUpdate { row: 99, col: 0, value: Some("1".to_string()), formula: None },
        ],
    };
    assert!(matches!(
        engine.apply_patch(&patch).unwrap_err(),
        sheet_engine::GridError::OutOfBounds(_)
    ));
    assert!(engine.get_cell(0, 0).is_none());
}
