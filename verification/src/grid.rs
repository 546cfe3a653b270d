//! The sparse grid: a bounded rectangle of cells stored column by column.
//!
//! Cells live in a map from column index to an ordered column of
//! (row, cell) entries.  A cell is present only when it carries a value,
//! a formula or a format; emptying an attribute-less cell removes it, and
//! a column with no cells left is removed from the store.

use vstd::prelude::*;
use std::collections::HashMap;
use crate::cell::{
    Cell, CellRef, CellValue, CellFormat, spec_display_value, duplicate_opt_string,
    duplicate_opt_format,
};
use crate::colmap::{
    col_entries, spec_keys_unique, spec_find_key, lemma_find_key_props, cm_new, cm_len, cm_get,
    cm_insert, cm_shift_remove, cm_entries, cm_clone,
};

verus! {

broadcast use vstd::std_specs::hash::group_hash_axioms;

/// Errors from grid operations.
#[derive(Debug)]
pub enum GridError {
    OutOfBounds(CellRef),
    Serialization(String),
    Formula(crate::formula::FormulaError),
}

/// The columns of the grid as a map from column index to entry sequence.
pub type ColumnsView = Map<u32, Seq<(u32, Cell)>>;

/// The cell stored at `r`, if any.
pub open spec fn spec_cells_at(cm: ColumnsView, r: CellRef) -> Option<Cell> {
    if cm.dom().contains(r.col) && spec_find_key(cm[r.col], r.row) >= 0 {
        Some(cm[r.col][spec_find_key(cm[r.col], r.row)].1)
    } else {
        None
    }
}

/// The columns with the cell at `r` replaced or appended.
pub open spec fn spec_cells_put(cm: ColumnsView, r: CellRef, cell: Cell) -> ColumnsView {
    let s = if cm.dom().contains(r.col) {
        cm[r.col]
    } else {
        Seq::<(u32, Cell)>::empty()
    };
    let i = spec_find_key(s, r.row);
    let s2 = if i >= 0 {
        s.update(i, (r.row, cell))
    } else {
        s.push((r.row, cell))
    };
    cm.insert(r.col, s2)
}

/// The columns with the cell at `r` removed; a column left with no
/// entries is removed from the store.
pub open spec fn spec_cells_remove(cm: ColumnsView, r: CellRef) -> ColumnsView {
    if !cm.dom().contains(r.col) {
        cm
    } else {
        let i = spec_find_key(cm[r.col], r.row);
        if i < 0 {
            cm
        } else {
            let s2 = cm[r.col].remove(i);
            if s2.len() == 0 {
                cm.remove(r.col)
            } else {
                cm.insert(r.col, s2)
            }
        }
    }
}

/// What setting a plain value does to the columns: a non-empty value
/// replaces the whole cell; the empty value clears the value and removes
/// the cell entirely when neither a formula nor a format remains.
pub open spec fn spec_cells_set_value(cm: ColumnsView, r: CellRef, v: CellValue) -> ColumnsView {
    if v is Empty {
        match spec_cells_at(cm, r) {
            Some(c) => if c.formula is None && c.format is None {
                spec_cells_remove(cm, r)
            } else {
                spec_cells_put(
                    cm,
                    r,
                    Cell { value: CellValue::Empty, formula: c.formula, format: c.format },
                )
            },
            None => cm,
        }
    } else {
        spec_cells_put(cm, r, Cell { value: v, formula: None, format: None })
    }
}

/// The format produced by merging `up` into an optional existing format:
/// each field `up` sets wins, the rest keep their old values.
pub open spec fn spec_merged_format(old: Option<CellFormat>, up: CellFormat) -> CellFormat {
    match old {
        None => up,
        Some(f) => CellFormat {
            number_format: if up.number_format is Some {
                up.number_format
            } else {
                f.number_format
            },
            font_bold: if up.font_bold is Some {
                up.font_bold
            } else {
                f.font_bold
            },
            font_italic: if up.font_italic is Some {
                up.font_italic
            } else {
                f.font_italic
            },
            font_underline: if up.font_underline is Some {
                up.font_underline
            } else {
                f.font_underline
            },
            font_family: if up.font_family is Some {
                up.font_family
            } else {
                f.font_family
            },
            font_size: if up.font_size is Some {
                up.font_size
            } else {
                f.font_size
            },
            font_color: if up.font_color is Some {
                up.font_color
            } else {
                f.font_color
            },
            bg_color: if up.bg_color is Some {
                up.bg_color
            } else {
                f.bg_color
            },
            align_h: if up.align_h is Some {
                up.align_h
            } else {
                f.align_h
            },
            align_v: if up.align_v is Some {
                up.align_v
            } else {
                f.align_v
            },
        },
    }
}

/// What setting a format does: the cell is created empty if absent, and
/// its format becomes the merge of the update into the old format.
pub open spec fn spec_cells_set_format(cm: ColumnsView, r: CellRef, up: CellFormat) -> ColumnsView {
    let c = match spec_cells_at(cm, r) {
        Some(c) => c,
        None => Cell { value: CellValue::Empty, formula: None, format: None },
    };
    spec_cells_put(
        cm,
        r,
        Cell { value: c.value, formula: c.formula, format: Some(spec_merged_format(c.format, up)) },
    )
}

/// Well-formedness of the columns: every column index is within bounds
/// and non-empty with unique row keys, and every row key is within bounds.
pub open spec fn spec_cols_wf(cm: ColumnsView, rows: u32, cols: u32) -> bool {
    &&& forall|c: u32|
        #[trigger] cm.dom().contains(c) ==> c < cols && cm[c].len() > 0 && spec_keys_unique(cm[c])
    &&& forall|c: u32, i: int|
        cm.dom().contains(c) && 0 <= i < cm[c].len() ==> (#[trigger] cm[c][i]).0 < rows
}

/// Number of cells stored in columns below `c`.
pub open spec fn spec_count_below(cm: ColumnsView, c: int) -> nat
    decreases c,
{
    if c <= 0 {
        0
    } else {
        spec_count_below(cm, c - 1) + (if cm.dom().contains((c - 1) as u32) {
            cm[(c - 1) as u32].len()
        } else {
            0
        })
    }
}

/// A sequence of pairs with unique keys, all below `bound`, has at most
/// `bound` entries.
pub proof fn lemma_unique_keys_bounded(s: Seq<(u32, Cell)>, bound: u32)
    requires
        spec_keys_unique(s),
        forall|i: int| 0 <= i < s.len() ==> (#[trigger] s[i]).0 < bound,
    ensures
        s.len() <= bound,
{
    let keys = s.map_values(|p: (u32, Cell)| p.0 as int);
    assert forall|i: int, j: int| 0 <= i < j < keys.len() implies keys[i] != keys[j] by {
        assert(s[i].0 != s[j].0);
    }
    assert(keys.no_duplicates());
    keys.unique_seq_to_set();
    assert forall|k: int| keys.to_set().contains(k) implies vstd::set_lib::set_int_range(
        0,
        bound as int,
    ).contains(k) by {
        let i = choose|i: int| 0 <= i < keys.len() && keys[i] == k;
        assert(s[i].0 < bound);
    }
    vstd::set_lib::lemma_int_range(0, bound as int);
    vstd::set_lib::lemma_len_subset(
        keys.to_set(),
        vstd::set_lib::set_int_range(0, bound as int),
    );
}

/// The main grid data structure, a sparse columnar store.
pub struct Grid {
    /// Maximum dimensions.
    pub rows: u32,
    pub cols: u32,
    /// Sparse cell storage: column index to ordered rows.
    pub columns: HashMap<u32, indexmap::IndexMap<u32, Cell>>,
    /// Column widths in whole pixels, where they differ from the default.
    pub col_widths: HashMap<u32, u32>,
    /// Row heights in whole pixels, where they differ from the default.
    pub row_heights: HashMap<u32, u32>,
    /// Default column width in pixels.
    pub default_col_width: u32,
    /// Default row height in pixels.
    pub default_row_height: u32,
}

impl Grid {
    /// The cells of the grid, column by column.
    pub open spec fn cells(&self) -> ColumnsView {
        Map::new(
            |c: u32| self.columns@.dom().contains(c),
            |c: u32| col_entries(self.columns@[c]),
        )
    }

    /// The explicitly set column widths.
    pub open spec fn widths(&self) -> Map<u32, u32> {
        self.col_widths@
    }

    /// The explicitly set row heights.
    pub open spec fn heights(&self) -> Map<u32, u32> {
        self.row_heights@
    }

    /// The default column width in pixels.
    pub open spec fn spec_default_col_width(&self) -> u32 {
        self.default_col_width
    }

    /// The default row height in pixels.
    pub open spec fn spec_default_row_height(&self) -> u32 {
        self.default_row_height
    }

    /// Well-formedness: the cells are in bounds and well kept.
    pub open spec fn wf(&self) -> bool {
        spec_cols_wf(self.cells(), self.rows, self.cols)
    }

    /// A fresh grid with the given bounds and no cells.
    pub fn new(rows: u32, cols: u32) -> (g: Grid)
        ensures
            g.rows == rows,
            g.cols == cols,
            g.cells() == Map::<u32, Seq<(u32, Cell)>>::empty(),
            g.widths() == Map::<u32, u32>::empty(),
            g.heights() == Map::<u32, u32>::empty(),
            g.spec_default_col_width() == 100,
            g.spec_default_row_height() == 24,
            g.wf(),
    {
        let g = Grid {
            rows,
            cols,
            columns: HashMap::new(),
            col_widths: HashMap::new(),
            row_heights: HashMap::new(),
            default_col_width: 100,
            default_row_height: 24,
        };
        proof {
            assert(g.cells() =~= Map::<u32, Seq<(u32, Cell)>>::empty());
        }
        g
    }

    /// Whether a reference lies within the grid's bounds.
    fn check_bounds(&self, r: CellRef) -> (ok: bool)
        ensures
            ok == (r.row < self.rows && r.col < self.cols),
    {
        r.row < self.rows && r.col < self.cols
    }

    /// The cell stored at `r`, if any.
    pub fn get_cell(&self, cell_ref: CellRef) -> (r: Option<&Cell>)
        ensures
            (r matches Some(c) ==> spec_cells_at(self.cells(), cell_ref) == Some(*c)),
            (r is None ==> spec_cells_at(self.cells(), cell_ref) is None),
    {
        match self.columns.get(&cell_ref.col) {
            Some(im) => {
                let got = cm_get(im, cell_ref.row);
                proof {
                    assert(self.cells()[cell_ref.col] == col_entries(self.columns@[cell_ref.col]));
                }
                got
            },
            None => None,
        }
    }

    /// Set a plain value.  In bounds, a non-empty value replaces the whole
    /// cell; the empty value clears the cell, removing it entirely when no
    /// formula and no format remain.  Out of bounds nothing changes.
    pub fn set_value(&mut self, cell_ref: CellRef, value: CellValue) -> (r: Result<(), GridError>)
        requires
            old(self).wf(),
        ensures
            final(self).wf(),
            final(self).rows == old(self).rows,
            final(self).cols == old(self).cols,
            final(self).widths() == old(self).widths(),
            final(self).heights() == old(self).heights(),
            final(self).spec_default_col_width() == old(self).spec_default_col_width(),
            final(self).spec_default_row_height() == old(self).spec_default_row_height(),
            (r matches Err(e) ==> e matches GridError::OutOfBounds(b) && b == cell_ref
                && !(cell_ref.row < old(self).rows && cell_ref.col < old(self).cols)
                && final(self).cells() == old(self).cells()),
            (r is Ok ==> cell_ref.row < old(self).rows && cell_ref.col < old(self).cols
                && final(self).cells() == spec_cells_set_value(old(self).cells(), cell_ref, value)),
    {
        if !self.check_bounds(cell_ref) {
            return Err(GridError::OutOfBounds(cell_ref));
        }
        let ghost cm0 = self.cells();
        let col = cell_ref.col;
        let row = cell_ref.row;
        let is_empty_value = match &value {
            CellValue::Empty => true,
            _ => false,
        };
        if is_empty_value {
            let mut im = match self.columns.remove(&col) {
                Some(im) => im,
                None => {
                    proof {
                        assert(self.cells() =~= cm0);
                        assert(spec_cells_set_value(cm0, cell_ref, value) =~= cm0);
                    }
                    return Ok(());
                },
            };
            let ghost entries0 = cm0[col];
            proof {
                assert(col_entries(im) == entries0);
                lemma_find_key_props(entries0, row);
            }
            let (present, keep_formula, keep_format) = match cm_get(&im, row) {
                Some(c) => (
                    true,
                    duplicate_opt_string(&c.formula),
                    duplicate_opt_format(&c.format),
                ),
                None => (false, None, None),
            };
            if !present {
                self.columns.insert(col, im);
                proof {
                    assert(self.cells() =~= cm0);
                    assert(spec_cells_set_value(cm0, cell_ref, value) =~= cm0);
                }
                return Ok(());
            }
            if keep_formula.is_none() && keep_format.is_none() {
                cm_shift_remove(&mut im, row);
                if cm_len(&im) == 0 {
                    proof {
                        assert(self.cells() =~= cm0.remove(col));
                        assert(spec_cells_set_value(cm0, cell_ref, value) =~= cm0.remove(col));
                        lemma_remove_col_wf(cm0, self.rows, self.cols, col);
                    }
                    return Ok(());
                }
                let ghost e2 = col_entries(im);
                self.columns.insert(col, im);
                proof {
                    assert(self.cells() =~= cm0.insert(col, e2));
                    assert(spec_cells_set_value(cm0, cell_ref, value) =~= cm0.insert(col, e2));
                    let i = spec_find_key(entries0, row);
                    assert forall|j: int| 0 <= j < e2.len() implies (#[trigger] e2[j]).0
                        < self.rows by {
                        assert(cm0.dom().contains(col));
                        if j < i {
                            assert(e2[j] == entries0[j]);
                        } else {
                            assert(e2[j] == entries0[j + 1]);
                        }
                    }
                    lemma_put_wf(cm0, self.rows, self.cols, cell_ref, e2);
                }
                return Ok(());
            }
            let newc = Cell { value: CellValue::Empty, formula: keep_formula, format: keep_format };
            cm_insert(&mut im, row, newc);
            let ghost e2 = col_entries(im);
            self.columns.insert(col, im);
            proof {
                assert(self.cells() =~= cm0.insert(col, e2));
                assert(spec_cells_set_value(cm0, cell_ref, value) =~= cm0.insert(col, e2));
                lemma_entries_put_bounds(entries0, row, newc, self.rows);
                assert(cm0.dom().contains(col));
                lemma_put_wf(cm0, self.rows, self.cols, cell_ref, e2);
            }
            return Ok(());
        }
        let had_col = self.columns.contains_key(&col);
        let mut im = match self.columns.remove(&col) {
            Some(im) => im,
            None => cm_new(),
        };
        let ghost entries0 = if had_col {
            cm0[col]
        } else {
            Seq::<(u32, Cell)>::empty()
        };
        proof {
            assert(col_entries(im) == entries0);
            lemma_find_key_props(entries0, row);
        }
        let newc = Cell { value, formula: None, format: None };
        cm_insert(&mut im, row, newc);
        let ghost e2 = col_entries(im);
        self.columns.insert(col, im);
        proof {
            assert(self.cells() =~= cm0.insert(col, e2));
            assert(spec_cells_set_value(cm0, cell_ref, value) =~= cm0.insert(col, e2));
            if had_col {
                assert(cm0.dom().contains(col));
            }
            lemma_entries_put_bounds(entries0, row, newc, self.rows);
            lemma_put_wf(cm0, self.rows, self.cols, cell_ref, e2);
        }
        Ok(())
    }
}

/// Replacing or appending an in-bounds entry keeps every row key in
/// bounds and the sequence non-empty.
pub proof fn lemma_entries_put_bounds(s: Seq<(u32, Cell)>, row: u32, c: Cell, rows: u32)
    requires
        forall|i: int| 0 <= i < s.len() ==> (#[trigger] s[i]).0 < rows,
        row < rows,
    ensures
        ({
            let i = spec_find_key(s, row);
            let e2 = if i >= 0 {
                s.update(i, (row, c))
            } else {
                s.push((row, c))
            };
            e2.len() > 0 && forall|j: int| 0 <= j < e2.len() ==> (#[trigger] e2[j]).0 < rows
        }),
{
    lemma_find_key_props(s, row);
    let i = spec_find_key(s, row);
    let e2 = if i >= 0 {
        s.update(i, (row, c))
    } else {
        s.push((row, c))
    };
    assert forall|j: int| 0 <= j < e2.len() implies (#[trigger] e2[j]).0 < rows by {
        if i >= 0 {
            if j != i {
                assert(e2[j] == s[j]);
            }
        } else {
            if j < s.len() {
                assert(e2[j] == s[j]);
            }
        }
    }
}

/// Removing a whole column keeps the columns well formed.
pub proof fn lemma_remove_col_wf(cm: ColumnsView, rows: u32, cols: u32, col: u32)
    requires
        spec_cols_wf(cm, rows, cols),
    ensures
        spec_cols_wf(cm.remove(col), rows, cols),
{
    let cm2 = cm.remove(col);
    assert forall|c: u32| #[trigger] cm2.dom().contains(c) implies c < cols && cm2[c].len() > 0
        && spec_keys_unique(cm2[c]) by {
        assert(cm.dom().contains(c));
    }
    assert forall|c: u32, i: int|
        cm2.dom().contains(c) && 0 <= i < cm2[c].len() implies (#[trigger] cm2[c][i]).0 < rows by {
        assert(cm.dom().contains(c));
        assert(cm[c][i].0 < rows);
    }
}

/// Inserting or updating one in-bounds cell preserves well-formedness of
/// the columns, where `e2` is the new entry sequence of the touched
/// column.
pub proof fn lemma_put_wf(cm: ColumnsView, rows: u32, cols: u32, r: CellRef, e2: Seq<(u32, Cell)>)
    requires
        spec_cols_wf(cm, rows, cols),
        r.row < rows,
        r.col < cols,
        e2.len() > 0,
        spec_keys_unique(e2),
        forall|i: int| 0 <= i < e2.len() ==> (#[trigger] e2[i]).0 < rows,
    ensures
        spec_cols_wf(cm.insert(r.col, e2), rows, cols),
{
    let cm2 = cm.insert(r.col, e2);
    assert forall|c: u32| #[trigger] cm2.dom().contains(c) implies c < cols && cm2[c].len() > 0
        && spec_keys_unique(cm2[c]) by {
        if c != r.col {
            assert(cm.dom().contains(c));
        }
    }
    assert forall|c: u32, i: int|
        cm2.dom().contains(c) && 0 <= i < cm2[c].len() implies (#[trigger] cm2[c][i]).0 < rows by {
        if c != r.col {
            assert(cm.dom().contains(c));
            assert(cm[c][i].0 < rows);
        }
    }
}

impl Grid {
    /// Attach a formula's text to a cell: the cell is replaced by one
    /// holding the raw text and an empty placeholder value, which the
    /// recalculation pass later overwrites.
    pub fn set_formula(&mut self, cell_ref: CellRef, formula: &crate::formula::Formula) -> (r:
        Result<(), GridError>)
        requires
            old(self).wf(),
        ensures
            final(self).wf(),
            final(self).rows == old(self).rows,
            final(self).cols == old(self).cols,
            final(self).widths() == old(self).widths(),
            final(self).heights() == old(self).heights(),
            final(self).spec_default_col_width() == old(self).spec_default_col_width(),
            final(self).spec_default_row_height() == old(self).spec_default_row_height(),
            (r matches Err(e) ==> e matches GridError::OutOfBounds(b) && b == cell_ref
                && !(cell_ref.row < old(self).rows && cell_ref.col < old(self).cols)
                && final(self).cells() == old(self).cells()),
            (r is Ok ==> cell_ref.row < old(self).rows && cell_ref.col < old(self).cols
                && final(self).cells() == spec_cells_put(
                old(self).cells(),
                cell_ref,
                Cell {
                    value: CellValue::Empty,
                    formula: Some(formula.raw),
                    format: None,
                },
            )),
    {
        if !self.check_bounds(cell_ref) {
            return Err(GridError::OutOfBounds(cell_ref));
        }
        let ghost cm0 = self.cells();
        let col = cell_ref.col;
        let row = cell_ref.row;
        let had_col = self.columns.contains_key(&col);
        let mut im = match self.columns.remove(&col) {
            Some(im) => im,
            None => cm_new(),
        };
        let ghost entries0 = if had_col {
            cm0[col]
        } else {
            Seq::<(u32, Cell)>::empty()
        };
        proof {
            assert(col_entries(im) == entries0);
            lemma_find_key_props(entries0, row);
        }
        let newc = Cell { value: CellValue::Empty, formula: Some(formula.raw.clone()), format: None };
        cm_insert(&mut im, row, newc);
        let ghost e2 = col_entries(im);
        self.columns.insert(col, im);
        proof {
            assert(self.cells() =~= cm0.insert(col, e2));
            assert(spec_cells_put(cm0, cell_ref, newc) =~= cm0.insert(col, e2));
            if had_col {
                assert(cm0.dom().contains(col));
            }
            lemma_entries_put_bounds(entries0, row, newc, self.rows);
            lemma_put_wf(cm0, self.rows, self.cols, cell_ref, e2);
        }
        Ok(())
    }

    /// Write a computed value into an existing cell, leaving its formula
    /// and format untouched; absent cells are left absent.
    pub fn set_computed_value(&mut self, cell_ref: CellRef, value: CellValue) -> (r: Result<
        (),
        GridError,
    >)
        requires
            old(self).wf(),
        ensures
            final(self).wf(),
            final(self).rows == old(self).rows,
            final(self).cols == old(self).cols,
            final(self).widths() == old(self).widths(),
            final(self).heights() == old(self).heights(),
            final(self).spec_default_col_width() == old(self).spec_default_col_width(),
            final(self).spec_default_row_height() == old(self).spec_default_row_height(),
            (r matches Err(e) ==> e matches GridError::OutOfBounds(b) && b == cell_ref
                && !(cell_ref.row < old(self).rows && cell_ref.col < old(self).cols)
                && final(self).cells() == old(self).cells()),
            (r is Ok ==> cell_ref.row < old(self).rows && cell_ref.col < old(self).cols
                && final(self).cells() == (match spec_cells_at(old(self).cells(), cell_ref) {
                Some(c) => spec_cells_put(
                    old(self).cells(),
                    cell_ref,
                    Cell { value: value, formula: c.formula, format: c.format },
                ),
                None => old(self).cells(),
            })),
    {
        if !self.check_bounds(cell_ref) {
            return Err(GridError::OutOfBounds(cell_ref));
        }
        let ghost cm0 = self.cells();
        let col = cell_ref.col;
        let row = cell_ref.row;
        let mut im = match self.columns.remove(&col) {
            Some(im) => im,
            None => {
                proof {
                    assert(self.cells() =~= cm0);
                }
                return Ok(());
            },
        };
        let ghost entries0 = cm0[col];
        proof {
            assert(col_entries(im) == entries0);
            lemma_find_key_props(entries0, row);
        }
        let (present, keep_formula, keep_format) = match cm_get(&im, row) {
            Some(c) => (true, duplicate_opt_string(&c.formula), duplicate_opt_format(&c.format)),
            None => (false, None, None),
        };
        if !present {
            self.columns.insert(col, im);
            proof {
                assert(self.cells() =~= cm0);
            }
            return Ok(());
        }
        let newc = Cell { value, formula: keep_formula, format: keep_format };
        cm_insert(&mut im, row, newc);
        let ghost e2 = col_entries(im);
        self.columns.insert(col, im);
        proof {
            assert(self.cells() =~= cm0.insert(col, e2));
            assert(spec_cells_put(cm0, cell_ref, newc) =~= cm0.insert(col, e2));
            assert(cm0.dom().contains(col));
            lemma_entries_put_bounds(entries0, row, newc, self.rows);
            lemma_put_wf(cm0, self.rows, self.cols, cell_ref, e2);
        }
        Ok(())
    }

    /// Merge formatting into a cell, creating an empty cell when absent.
    pub fn set_format(&mut self, cell_ref: CellRef, format: CellFormat) -> (r: Result<
        (),
        GridError,
    >)
        requires
            old(self).wf(),
        ensures
            final(self).wf(),
            final(self).rows == old(self).rows,
            final(self).cols == old(self).cols,
            final(self).widths() == old(self).widths(),
            final(self).heights() == old(self).heights(),
            final(self).spec_default_col_width() == old(self).spec_default_col_width(),
            final(self).spec_default_row_height() == old(self).spec_default_row_height(),
            (r matches Err(e) ==> e matches GridError::OutOfBounds(b) && b == cell_ref
                && !(cell_ref.row < old(self).rows && cell_ref.col < old(self).cols)
                && final(self).cells() == old(self).cells()),
            (r is Ok ==> cell_ref.row < old(self).rows && cell_ref.col < old(self).cols
                && final(self).cells() == spec_cells_set_format(
                old(self).cells(),
                cell_ref,
                format,
            )),
    {
        if !self.check_bounds(cell_ref) {
            return Err(GridError::OutOfBounds(cell_ref));
        }
        let ghost cm0 = self.cells();
        let col = cell_ref.col;
        let row = cell_ref.row;
        let had_col = self.columns.contains_key(&col);
        let mut im = match self.columns.remove(&col) {
            Some(im) => im,
            None => cm_new(),
        };
        let ghost entries0 = if had_col {
            cm0[col]
        } else {
            Seq::<(u32, Cell)>::empty()
        };
        proof {
            assert(col_entries(im) == entries0);
            lemma_find_key_props(entries0, row);
        }
        let (value0, formula0, format0) = match cm_get(&im, row) {
            Some(c) => (
                c.value.duplicate(),
                duplicate_opt_string(&c.formula),
                duplicate_opt_format(&c.format),
            ),
            None => (CellValue::Empty, None, None),
        };
        let merged: CellFormat = match format0 {
            Some(mut f) => {
                f.merge(format);
                proof {
                    let ghost c0 = spec_cells_at(cm0, cell_ref);
                    assert(f =~= spec_merged_format(
                        (match c0 {
                            Some(c) => c.format,
                            None => None,
                        }),
                        format,
                    ));
                }
                f
            },
            None => format,
        };
        let newc = Cell { value: value0, formula: formula0, format: Some(merged) };
        cm_insert(&mut im, row, newc);
        let ghost e2 = col_entries(im);
        self.columns.insert(col, im);
        proof {
            assert(self.cells() =~= cm0.insert(col, e2));
            assert(spec_cells_set_format(cm0, cell_ref, format) =~= cm0.insert(col, e2));
            if had_col {
                assert(cm0.dom().contains(col));
            }
            lemma_entries_put_bounds(entries0, row, newc, self.rows);
            lemma_put_wf(cm0, self.rows, self.cols, cell_ref, e2);
        }
        Ok(())
    }

    /// The stored width of a column, or the default.
    pub fn get_col_width(&self, col: u32) -> (w: u32)
        ensures
            w == (if self.widths().dom().contains(col) {
                self.widths()[col]
            } else {
                self.spec_default_col_width()
            }),
    {
        match self.col_widths.get(&col) {
            Some(w) => *w,
            None => self.default_col_width,
        }
    }

    /// Set a column's width; the default width removes the entry.
    pub fn set_col_width(&mut self, col: u32, width: u32)
        ensures
            final(self).widths() == (if width == old(self).spec_default_col_width() {
                old(self).widths().remove(col)
            } else {
                old(self).widths().insert(col, width)
            }),
            final(self).cells() == old(self).cells(),
            final(self).heights() == old(self).heights(),
            final(self).rows == old(self).rows,
            final(self).cols == old(self).cols,
            final(self).spec_default_col_width() == old(self).spec_default_col_width(),
            final(self).spec_default_row_height() == old(self).spec_default_row_height(),
            final(self).wf() == old(self).wf(),
    {
        if width == self.default_col_width {
            self.col_widths.remove(&col);
        } else {
            self.col_widths.insert(col, width);
        }
        proof {
            assert(self.cells() =~= old(self).cells());
        }
    }

    /// The stored height of a row, or the default.
    pub fn get_row_height(&self, row: u32) -> (h: u32)
        ensures
            h == (if self.heights().dom().contains(row) {
                self.heights()[row]
            } else {
                self.spec_default_row_height()
            }),
    {
        match self.row_heights.get(&row) {
            Some(h) => *h,
            None => self.default_row_height,
        }
    }

    /// Set a row's height; the default height removes the entry.
    pub fn set_row_height(&mut self, row: u32, height: u32)
        ensures
            final(self).heights() == (if height == old(self).spec_default_row_height() {
                old(self).heights().remove(row)
            } else {
                old(self).heights().insert(row, height)
            }),
            final(self).cells() == old(self).cells(),
            final(self).widths() == old(self).widths(),
            final(self).rows == old(self).rows,
            final(self).cols == old(self).cols,
            final(self).spec_default_col_width() == old(self).spec_default_col_width(),
            final(self).spec_default_row_height() == old(self).spec_default_row_height(),
            final(self).wf() == old(self).wf(),
    {
        if height == self.default_row_height {
            self.row_heights.remove(&row);
        } else {
            self.row_heights.insert(row, height);
        }
        proof {
            assert(self.cells() =~= old(self).cells());
        }
    }

    /// Total number of cells stored.
    pub fn cell_count(&self) -> (n: u64)
        requires
            self.wf(),
        ensures
            n == spec_count_below(self.cells(), self.cols as int),
    {
        let mut total: u64 = 0;
        let mut c: u32 = 0;
        while c < self.cols
            invariant
                self.wf(),
                c <= self.cols,
                total == spec_count_below(self.cells(), c as int),
                total <= (c as int) * (self.rows as int),
            decreases self.cols - c,
        {
            match self.columns.get(&c) {
                Some(im) => {
                    let len = cm_len(im);
                    proof {
                        assert(self.cells().dom().contains(c));
                        assert(col_entries(self.columns@[c]) == self.cells()[c]);
                        lemma_unique_keys_bounded(self.cells()[c], self.rows);
                        assert((c as int) * (self.rows as int) + (self.rows as int) == ((
                        c as int) + 1) * (self.rows as int)) by (nonlinear_arith);
                        assert(((c as int) + 1) * (self.rows as int) <= (self.cols as int) * (
                        self.rows as int)) by (nonlinear_arith)
                            requires (c as int) + 1 <= self.cols as int, self.rows >= 0;
                        assert((self.cols as int) * (self.rows as int)
                            < 0x10000000000000000) by (nonlinear_arith)
                            requires
                                self.cols as int <= 0xffffffff,
                                self.rows as int <= 0xffffffff,
                        ;
                    }
                    total = total + len as u64;
                },
                None => {
                    proof {
                        assert(!self.cells().dom().contains(c));
                        assert((c as int) * (self.rows as int) <= ((c as int) + 1) * (
                        self.rows as int)) by (nonlinear_arith)
                            requires c >= 0, self.rows >= 0;
                        assert(((c as int) + 1) * (self.rows as int) <= (self.cols as int) * (
                        self.rows as int)) by (nonlinear_arith)
                            requires (c as int) + 1 <= self.cols as int, self.rows >= 0;
                    }
                },
            }
            c = c + 1;
        }
        total
    }
}

/// One cell prepared for display: coordinates, the display string, and
/// the formula and format if present.
#[derive(Debug)]
pub struct CellData {
    pub row: u32,
    pub col: u32,
    pub value: String,
    pub formula: Option<String>,
    pub format: Option<CellFormat>,
}

/// Mathematical model of a `CellData`.
pub struct CellDataView {
    pub row: u32,
    pub col: u32,
    pub value: Seq<char>,
    pub formula: Option<Seq<char>>,
    pub format: Option<CellFormat>,
}

/// The view of an optional string.
pub open spec fn spec_opt_str_view(o: Option<String>) -> Option<Seq<char>> {
    match o {
        Some(s) => Some(s@),
        None => None,
    }
}

impl View for CellData {
    type V = CellDataView;

    open spec fn view(&self) -> CellDataView {
        CellDataView {
            row: self.row,
            col: self.col,
            value: self.value@,
            formula: spec_opt_str_view(self.formula),
            format: self.format,
        }
    }
}

/// The display record of one stored cell.
pub open spec fn spec_cell_data(row: u32, col: u32, c: Cell) -> CellDataView {
    CellDataView {
        row,
        col,
        value: spec_display_value(c.value),
        formula: spec_opt_str_view(c.formula),
        format: c.format,
    }
}

/// The display records of one column's entries whose rows lie in
/// `[r0, r1]`, in storage order.
pub open spec fn spec_col_range_data(s: Seq<(u32, Cell)>, col: u32, r0: u32, r1: u32) -> Seq<
    CellDataView,
>
    decreases s.len(),
{
    if s.len() == 0 {
        Seq::empty()
    } else {
        let rest = spec_col_range_data(s.drop_first(), col, r0, r1);
        if r0 <= s[0].0 <= r1 {
            seq![spec_cell_data(s[0].0, col, s[0].1)] + rest
        } else {
            rest
        }
    }
}

/// The display records of the columns in `[c, cend]`, column by column.
pub open spec fn spec_range_data(cm: ColumnsView, c: int, cend: int, r0: u32, r1: u32) -> Seq<
    CellDataView,
>
    decreases cend - c + 1,
{
    if c > cend || c < 0 {
        Seq::empty()
    } else {
        (if cm.dom().contains(c as u32) {
            spec_col_range_data(cm[c as u32], c as u32, r0, r1)
        } else {
            Seq::empty()
        }) + spec_range_data(cm, c + 1, cend, r0, r1)
    }
}

impl Grid {
    /// All stored cells in the rectangle, as display records, column by
    /// column in storage order.  The column range is clamped to the grid.
    pub fn get_range(&self, start_row: u32, start_col: u32, end_row: u32, end_col: u32) -> (r:
        Vec<CellData>)
        requires
            self.wf(),
        ensures
            r@.map_values(|d: CellData| d@) == spec_range_data(
                self.cells(),
                start_col as int,
                (if end_col as int <= self.cols as int - 1 {
                    end_col as int
                } else {
                    self.cols as int - 1
                }),
                start_row,
                end_row,
            ),
    {
        let mut out: Vec<CellData> = Vec::new();
        let ghost cend: int = if end_col as int <= self.cols as int - 1 {
            end_col as int
        } else {
            self.cols as int - 1
        };
        if self.cols == 0 {
            proof {
                assert(spec_range_data(self.cells(), start_col as int, cend, start_row, end_row)
                    =~= Seq::<CellDataView>::empty());
                assert(out@.map_values(|d: CellData| d@) =~= Seq::<CellDataView>::empty());
            }
            return out;
        }
        let last_col: u32 = if end_col <= self.cols - 1 {
            end_col
        } else {
            self.cols - 1
        };
        let mut c: u64 = start_col as u64;
        proof {
            assert(out@.map_values(|d: CellData| d@) =~= Seq::<CellDataView>::empty());
            assert(spec_range_data(self.cells(), start_col as int, cend, start_row, end_row)
                =~= out@.map_values(|d: CellData| d@) + spec_range_data(
                self.cells(),
                c as int,
                cend,
                start_row,
                end_row,
            ));
        }
        while c <= last_col as u64
            invariant
                self.wf(),
                cend == last_col as int,
                last_col < self.cols,
                start_col as int <= c <= 0x1_0000_0000u64,
                spec_range_data(self.cells(), start_col as int, cend, start_row, end_row)
                    =~= out@.map_values(|d: CellData| d@) + spec_range_data(
                    self.cells(),
                    c as int,
                    cend,
                    start_row,
                    end_row,
                ),
            decreases last_col as int + 1 - c,
        {
            match self.columns.get(&(c as u32)) {
                Some(im) => {
                    let entries = cm_entries(im);
                    let ghost col_seq = col_entries(self.columns@[c as u32]);
                    proof {
                        assert(self.cells().dom().contains(c as u32));
                        assert(self.cells()[c as u32] == col_seq);
                    }
                    let m: usize = entries.len();
                    let ghost out_start = out@;
                    let mut i: usize = 0;
                    proof {
                        assert(col_seq.subrange(0, 0) =~= Seq::<(u32, Cell)>::empty());
                    }
                    while i < m
                        invariant
                            m == entries@.len(),
                            entries@ == col_seq,
                            0 <= i <= m,
                            out@.map_values(|d: CellData| d@) =~= out_start.map_values(
                                |d: CellData| d@,
                            ) + spec_col_range_data(
                                col_seq.subrange(0, i as int),
                                c as u32,
                                start_row,
                                end_row,
                            ),
                            c <= 0xffffffffu64,
                        decreases m - i,
                    {
                        let (row, cell) = (entries[i].0, entries[i].1.duplicate());
                        proof {
                            assert(col_seq.subrange(0, i + 1) =~= col_seq.subrange(0, i as int)
                                + seq![col_seq[i as int]]);
                            lemma_col_range_concat(
                                col_seq.subrange(0, i as int),
                                seq![col_seq[i as int]],
                                c as u32,
                                start_row,
                                end_row,
                            );
                            let single = seq![col_seq[i as int]];
                            assert(single.len() == 1);
                            assert(single.drop_first() =~= Seq::<(u32, Cell)>::empty());
                            assert(single[0] == col_seq[i as int]);
                            assert(spec_col_range_data(
                                Seq::<(u32, Cell)>::empty(),
                                c as u32,
                                start_row,
                                end_row,
                            ) =~= Seq::<CellDataView>::empty());
                            assert(spec_col_range_data(single, c as u32, start_row, end_row)
                                == (if start_row <= single[0].0 <= end_row {
                                seq![spec_cell_data(single[0].0, c as u32, single[0].1)]
                                    + spec_col_range_data(single.drop_first(), c as u32,
                                    start_row, end_row)
                            } else {
                                spec_col_range_data(single.drop_first(), c as u32, start_row,
                                    end_row)
                            }));
                        }
                        if row >= start_row && row <= end_row {
                            let data = CellData {
                                row,
                                col: c as u32,
                                value: cell.value.display(),
                                formula: duplicate_opt_string(&cell.formula),
                                format: duplicate_opt_format(&cell.format),
                            };
                            proof {
                                let prev = out@;
                                assert(prev.push(data).map_values(|d: CellData| d@)
                                    =~= prev.map_values(|d: CellData| d@).push(data@));
                                assert(data@ == spec_cell_data(row, c as u32, col_seq[i as int].1));
                                let single = seq![col_seq[i as int]];
                                assert(spec_col_range_data(single, c as u32, start_row, end_row)
                                    =~= seq![data@]);
                                assert(prev.map_values(|d: CellData| d@).push(data@)
                                    =~= out_start.map_values(|d: CellData| d@)
                                    + spec_col_range_data(col_seq.subrange(0, i + 1), c as u32,
                                    start_row, end_row));
                            }
                            out.push(data);
                        } else {
                            proof {
                                let single = seq![col_seq[i as int]];
                                assert(spec_col_range_data(single, c as u32, start_row, end_row)
                                    =~= Seq::<CellDataView>::empty());
                                assert(out@.map_values(|d: CellData| d@)
                                    =~= out_start.map_values(|d: CellData| d@)
                                    + spec_col_range_data(col_seq.subrange(0, i + 1), c as u32,
                                    start_row, end_row));
                            }
                        }
                        i += 1;
                    }
                    proof {
                        assert(col_seq.subrange(0, m as int) =~= col_seq);
                    }
                },
                None => {
                    proof {
                        assert(!self.cells().dom().contains(c as u32));
                    }
                },
            }
            c += 1;
        }
        proof {
            assert(spec_range_data(self.cells(), c as int, cend, start_row, end_row)
                =~= Seq::<CellDataView>::empty());
        }
        out
    }

    /// Merge a format into every cell of a rectangle, clamped to the
    /// grid's bounds.
    pub fn apply_format_to_range(
        &mut self,
        start_row: u32,
        start_col: u32,
        end_row: u32,
        end_col: u32,
        format: CellFormat,
    ) -> (r: Result<(), GridError>)
        requires
            old(self).wf(),
        ensures
            final(self).wf(),
            final(self).rows == old(self).rows,
            final(self).cols == old(self).cols,
            final(self).widths() == old(self).widths(),
            final(self).heights() == old(self).heights(),
            final(self).spec_default_col_width() == old(self).spec_default_col_width(),
            final(self).spec_default_row_height() == old(self).spec_default_row_height(),
            r is Ok,
            final(self).cells() == spec_cells_format_rect(
                old(self).cells(),
                start_row as int,
                start_col as int,
                (if end_row as int <= old(self).rows as int - 1 {
                    end_row as int
                } else {
                    old(self).rows as int - 1
                }),
                (if end_col as int <= old(self).cols as int - 1 {
                    end_col as int
                } else {
                    old(self).cols as int - 1
                }),
                format,
            ),
    {
        let ghost cm0 = self.cells();
        if self.rows == 0 || self.cols == 0 {
            proof {
                lemma_format_rect_empty(
                    cm0,
                    start_row as int,
                    start_col as int,
                    (if end_row as int <= self.rows as int - 1 {
                        end_row as int
                    } else {
                        self.rows as int - 1
                    }),
                    (if end_col as int <= self.cols as int - 1 {
                        end_col as int
                    } else {
                        self.cols as int - 1
                    }),
                    format,
                );
            }
            return Ok(());
        }
        let rend: u32 = if end_row <= self.rows - 1 {
            end_row
        } else {
            self.rows - 1
        };
        let cend: u32 = if end_col <= self.cols - 1 {
            end_col
        } else {
            self.cols - 1
        };
        let mut row: u64 = start_row as u64;
        proof {
            lemma_format_rows_unfold_none(cm0, start_row as int, start_col as int, rend as int,
                cend as int, format);
        }
        while row <= rend as u64
            invariant
                self.wf(),
                self.rows == old(self).rows,
                self.cols == old(self).cols,
                self.widths() == old(self).widths(),
                self.heights() == old(self).heights(),
                self.spec_default_col_width() == old(self).spec_default_col_width(),
                self.spec_default_row_height() == old(self).spec_default_row_height(),
                start_row as int <= row <= 0x1_0000_0000u64,
                rend < self.rows,
                cend < self.cols,
                spec_cells_format_rect(cm0, start_row as int, start_col as int, rend as int,
                    cend as int, format) == spec_cells_format_rect(
                    self.cells(),
                    row as int,
                    start_col as int,
                    rend as int,
                    cend as int,
                    format,
                ),
            decreases rend as int + 1 - row,
        {
            let mut col: u64 = start_col as u64;
            proof {
                assert(spec_cells_format_rect(self.cells(), row as int, start_col as int,
                    rend as int, cend as int, format) == spec_cells_format_rect(
                    spec_cells_format_row(self.cells(), row as int, start_col as int, cend as int,
                        format),
                    row as int + 1,
                    start_col as int,
                    rend as int,
                    cend as int,
                    format,
                ));
            }
            while col <= cend as u64
                invariant
                    self.wf(),
                    self.rows == old(self).rows,
                    self.cols == old(self).cols,
                    self.widths() == old(self).widths(),
                    self.heights() == old(self).heights(),
                    self.spec_default_col_width() == old(self).spec_default_col_width(),
                    self.spec_default_row_height() == old(self).spec_default_row_height(),
                    start_col as int <= col <= 0x1_0000_0000u64,
                    start_row as int <= row <= rend as int,
                    rend < self.rows,
                    cend < self.cols,
                    spec_cells_format_rect(cm0, start_row as int, start_col as int, rend as int,
                        cend as int, format) == spec_cells_format_rect(
                        spec_cells_format_row(self.cells(), row as int, col as int, cend as int,
                            format),
                        row as int + 1,
                        start_col as int,
                        rend as int,
                        cend as int,
                        format,
                    ),
                decreases cend as int + 1 - col,
            {
                let res = self.set_format(
                    CellRef { row: row as u32, col: col as u32 },
                    format.duplicate(),
                );
                proof {
                    assert(res is Ok);
                }
                col += 1;
            }
            proof {
                assert(spec_cells_format_row(self.cells(), row as int, col as int, cend as int,
                    format) == self.cells());
            }
            row += 1;
        }
        proof {
            assert(spec_cells_format_rect(self.cells(), row as int, start_col as int, rend as int,
                cend as int, format) == self.cells());
        }
        Ok(())
    }
}

/// One row of a formatting sweep: merge the format into the cells of
/// columns `c0..=c1` of row `r`.
pub open spec fn spec_cells_format_row(cm: ColumnsView, r: int, c0: int, c1: int, f: CellFormat)
    -> ColumnsView
    decreases c1 - c0 + 1,
{
    if c0 > c1 || c0 < 0 || r < 0 {
        cm
    } else {
        spec_cells_format_row(
            spec_cells_set_format(cm, CellRef { row: r as u32, col: c0 as u32 }, f),
            r,
            c0 + 1,
            c1,
            f,
        )
    }
}

/// A whole formatting sweep over rows `r0..=r1`.
pub open spec fn spec_cells_format_rect(
    cm: ColumnsView,
    r0: int,
    c0: int,
    r1: int,
    c1: int,
    f: CellFormat,
) -> ColumnsView
    decreases r1 - r0 + 1,
{
    if r0 > r1 || r0 < 0 {
        cm
    } else {
        spec_cells_format_rect(spec_cells_format_row(cm, r0, c0, c1, f), r0 + 1, c0, r1, c1, f)
    }
}

/// An empty sweep changes nothing.
pub proof fn lemma_format_rect_empty(
    cm: ColumnsView,
    r0: int,
    c0: int,
    r1: int,
    c1: int,
    f: CellFormat,
)
    requires
        r0 > r1 || c0 > c1 || r1 < 0 || c1 < 0,
    ensures
        spec_cells_format_rect(cm, r0, c0, r1, c1, f) == cm,
    decreases r1 - r0 + 1,
{
    if !(r0 > r1 || r0 < 0) {
        assert(spec_cells_format_row(cm, r0, c0, c1, f) == cm);
        lemma_format_rect_empty(cm, r0 + 1, c0, r1, c1, f);
    }
}

/// Unfolding helper: nothing has been formatted yet.
pub proof fn lemma_format_rows_unfold_none(
    cm: ColumnsView,
    r0: int,
    c0: int,
    r1: int,
    c1: int,
    f: CellFormat,
)
    ensures
        spec_cells_format_rect(cm, r0, c0, r1, c1, f) == spec_cells_format_rect(
            cm,
            r0,
            c0,
            r1,
            c1,
            f,
        ),
{
}

/// Display records concatenate over entry concatenation.
pub proof fn lemma_col_range_concat(a: Seq<(u32, Cell)>, b: Seq<(u32, Cell)>, col: u32, r0: u32, r1: u32)
    ensures
        spec_col_range_data(a + b, col, r0, r1) == spec_col_range_data(a, col, r0, r1)
            + spec_col_range_data(b, col, r0, r1),
    decreases a.len(),
{
    if a.len() == 0 {
        assert(a + b =~= b);
        assert(spec_col_range_data(a, col, r0, r1) =~= Seq::<CellDataView>::empty());
        assert(spec_col_range_data(a, col, r0, r1) + spec_col_range_data(b, col, r0, r1)
            =~= spec_col_range_data(b, col, r0, r1));
    } else {
        let s = a + b;
        assert(s[0] == a[0]);
        assert(s.drop_first() =~= a.drop_first() + b);
        lemma_col_range_concat(a.drop_first(), b, col, r0, r1);
        if r0 <= a[0].0 <= r1 {
            assert(seq![spec_cell_data(a[0].0, col, a[0].1)] + (spec_col_range_data(
                a.drop_first(),
                col,
                r0,
                r1,
            ) + spec_col_range_data(b, col, r0, r1)) =~= (seq![
                spec_cell_data(a[0].0, col, a[0].1),
            ] + spec_col_range_data(a.drop_first(), col, r0, r1)) + spec_col_range_data(
                b,
                col,
                r0,
                r1,
            ));
        }
    }
}

/// A batch of cell updates.
#[derive(Debug)]
pub struct GridPatch {
    pub updates: Vec<CellUpdate>,
}

/// One cell update: a literal value or a formula for one cell.
#[derive(Debug)]
pub struct CellUpdate {
    pub row: u32,
    pub col: u32,
    pub value: Option<String>,
    pub formula: Option<String>,
}

/// A change report: the display records of the cells an operation
/// touched.
#[derive(Debug)]
pub struct GridDiff {
    pub cells: Vec<CellData>,
}

/// The display records of the listed references that hold cells.
pub open spec fn spec_diff_cells(cm: ColumnsView, refs: Seq<CellRef>) -> Seq<CellDataView>
    decreases refs.len(),
{
    if refs.len() == 0 {
        Seq::empty()
    } else {
        let rest = spec_diff_cells(cm, refs.drop_first());
        match spec_cells_at(cm, refs[0]) {
            Some(c) => seq![spec_cell_data(refs[0].row, refs[0].col, c)] + rest,
            None => rest,
        }
    }
}

impl GridDiff {
    /// Build a diff from the cells at the given references; absent cells
    /// are skipped.
    pub fn from_cells(grid: &Grid, cells: &Vec<CellRef>) -> (r: GridDiff)
        requires
            grid.wf(),
        ensures
            r.cells@.map_values(|d: CellData| d@) == spec_diff_cells(grid.cells(), cells@),
    {
        let mut out: Vec<CellData> = Vec::new();
        let n: usize = cells.len();
        proof {
            assert(cells@.subrange(0, n as int) =~= cells@);
            assert(out@.map_values(|d: CellData| d@) =~= Seq::<CellDataView>::empty());
        }
        let mut i: usize = 0;
        while i < n
            invariant
                grid.wf(),
                n == cells@.len(),
                0 <= i <= n,
                spec_diff_cells(grid.cells(), cells@) =~= out@.map_values(|d: CellData| d@)
                    + spec_diff_cells(grid.cells(), cells@.subrange(i as int, n as int)),
            decreases n - i,
        {
            let cr = cells[i];
            proof {
                let tail = cells@.subrange(i as int, n as int);
                assert(tail[0] == cells@[i as int]);
                assert(tail.drop_first() =~= cells@.subrange(i + 1, n as int));
            }
            match grid.get_cell(cr) {
                Some(cell) => {
                    let data = CellData {
                        row: cr.row,
                        col: cr.col,
                        value: cell.value.display(),
                        formula: duplicate_opt_string(&cell.formula),
                        format: duplicate_opt_format(&cell.format),
                    };
                    proof {
                        let prev = out@;
                        assert(prev.push(data).map_values(|d: CellData| d@) =~= prev.map_values(
                            |d: CellData| d@,
                        ).push(data@));
                    }
                    out.push(data);
                },
                None => {
                },
            }
            i += 1;
        }
        proof {
            assert(cells@.subrange(n as int, n as int) =~= Seq::<CellRef>::empty());
        }
        GridDiff { cells: out }
    }
}

impl Grid {
    /// An equal copy of the grid (used as the staging copy of an atomic
    /// recalculation).
    pub fn duplicate(&self) -> (g: Grid)
        requires
            self.wf(),
        ensures
            g.rows == self.rows,
            g.cols == self.cols,
            g.cells() == self.cells(),
            g.widths() == self.widths(),
            g.heights() == self.heights(),
            g.spec_default_col_width() == self.spec_default_col_width(),
            g.spec_default_row_height() == self.spec_default_row_height(),
            g.wf(),
    {
        let mut columns: HashMap<u32, indexmap::IndexMap<u32, Cell>> = HashMap::new();
        let mut c: u32 = 0;
        while c < self.cols
            invariant
                self.wf(),
                c <= self.cols,
                forall|x: u32|
                    #[trigger] columns@.dom().contains(x) <==> (x < c && self.columns@
                        .dom().contains(x)),
                forall|x: u32|
                    columns@.dom().contains(x) ==> crate::colmap::col_entries(
                        #[trigger] columns@[x],
                    ) == crate::colmap::col_entries(self.columns@[x]),
            decreases self.cols - c,
        {
            match self.columns.get(&c) {
                Some(im) => {
                    let copy = cm_clone(im);
                    columns.insert(c, copy);
                },
                None => {
                },
            }
            c += 1;
        }
        let g = Grid {
            rows: self.rows,
            cols: self.cols,
            columns,
            col_widths: self.col_widths.clone(),
            row_heights: self.row_heights.clone(),
            default_col_width: self.default_col_width,
            default_row_height: self.default_row_height,
        };
        proof {
            assert forall|x: u32| #[trigger]
                g.columns@.dom().contains(x) <==> self.columns@.dom().contains(x) by {
                if self.columns@.dom().contains(x) {
                    assert(self.cells().dom().contains(x));
                    assert(x < self.cols);
                }
            }
            assert(g.cells() =~= self.cells());
        }
        g
    }
}

/// The first hit depends only on the keys.
pub proof fn lemma_find_key_pointwise(s: Seq<(u32, Cell)>, s2: Seq<(u32, Cell)>, k: u32)
    requires
        s.len() == s2.len(),
        forall|x: int| 0 <= x < s.len() ==> (#[trigger] s2[x]).0 == s[x].0,
    ensures
        spec_find_key(s2, k) == spec_find_key(s, k),
    decreases s.len(),
{
    if s.len() > 0 {
        assert(s2[0].0 == s[0].0);
        if s[0].0 != k {
            let t = s.drop_first();
            let t2 = s2.drop_first();
            assert forall|x: int| 0 <= x < t.len() implies (#[trigger] t2[x]).0 == t[x].0 by {
                assert(t2[x] == s2[x + 1] && t[x] == s[x + 1]);
            }
            lemma_find_key_pointwise(t, t2, k);
        }
    }
}

/// The first hit after appending one entry.
pub proof fn lemma_find_key_push(s: Seq<(u32, Cell)>, p: (u32, Cell), k: u32)
    ensures
        spec_find_key(s.push(p), k) == (if spec_find_key(s, k) >= 0 {
            spec_find_key(s, k)
        } else if p.0 == k {
            s.len() as int
        } else {
            -1
        }),
    decreases s.len(),
{
    let s2 = s.push(p);
    if s.len() == 0 {
        assert(s2[0] == p);
        if p.0 != k {
            assert(s2.drop_first() =~= Seq::<(u32, Cell)>::empty());
            assert(spec_find_key(s2.drop_first(), k) == -1);
        }
    } else {
        assert(s2[0] == s[0]);
        if s[0].0 != k {
            let t = s.drop_first();
            assert(s2.drop_first() =~= t.push(p));
            lemma_find_key_push(t, p, k);
            assert(spec_find_key(s2, k) == (if spec_find_key(s2.drop_first(), k) < 0 {
                -1int
            } else {
                1 + spec_find_key(s2.drop_first(), k)
            }));
            assert(spec_find_key(s, k) == (if spec_find_key(t, k) < 0 {
                -1int
            } else {
                1 + spec_find_key(t, k)
            }));
            assert(spec_find_key(s2.drop_first(), k) == spec_find_key(t.push(p), k));
        }
    }
}

/// Looking an entry up after a replacement or append: the put key reads
/// the new cell, every other key reads as before, and uniqueness is
/// kept.
pub proof fn lemma_entries_put_find(s: Seq<(u32, Cell)>, row: u32, c: Cell, row2: u32)
    requires
        spec_keys_unique(s),
    ensures
        ({
            let i = spec_find_key(s, row);
            let s2 = if i >= 0 {
                s.update(i, (row, c))
            } else {
                s.push((row, c))
            };
            &&& spec_keys_unique(s2)
            &&& (row2 == row ==> spec_find_key(s2, row2) >= 0 && s2[spec_find_key(s2, row2)].1
                == c)
            &&& (row2 != row ==> spec_find_key(s2, row2) == spec_find_key(s, row2) && (
            spec_find_key(s, row2) >= 0 ==> s2[spec_find_key(s, row2)] == s[spec_find_key(
                s,
                row2,
            )]))
        }),
{
    lemma_find_key_props(s, row);
    lemma_find_key_props(s, row2);
    let i = spec_find_key(s, row);
    let s2 = if i >= 0 {
        s.update(i, (row, c))
    } else {
        s.push((row, c))
    };
    assert forall|x: int, y: int| 0 <= x < y < s2.len() implies (#[trigger] s2[x]).0 != (
    #[trigger] s2[y]).0 by {
        if i >= 0 {
            assert(s2[x].0 == s[x].0 && s2[y].0 == s[y].0);
        } else {
            if y < s.len() {
                assert(s2[x].0 == s[x].0 && s2[y].0 == s[y].0);
            } else {
                assert(s2[y].0 == row);
                assert(s2[x].0 == s[x].0);
                assert(s[x].0 != row);
            }
        }
    }
    if i >= 0 {
        assert forall|x: int| 0 <= x < s.len() implies (#[trigger] s2[x]).0 == s[x].0 by {
            if x != i {
            } else {
                assert(s[i].0 == row);
            }
        }
        lemma_find_key_pointwise(s, s2, row);
        lemma_find_key_pointwise(s, s2, row2);
        if row2 == row {
            assert(s2[i] == (row, c));
        } else {
            if spec_find_key(s, row2) >= 0 {
                assert(s[spec_find_key(s, row2)].0 == row2);
                assert(spec_find_key(s, row2) != i);
            }
        }
    } else {
        lemma_find_key_push(s, (row, c), row);
        lemma_find_key_push(s, (row, c), row2);
        if row2 == row {
            assert(s2[s.len() as int] == (row, c));
        } else {
            if spec_find_key(s, row2) >= 0 {
                assert(s2[spec_find_key(s, row2)] == s[spec_find_key(s, row2)]);
            }
        }
    }
}

/// The cell read back after a put: the put reference reads the new cell,
/// every other reference reads as before.
pub proof fn lemma_cells_put_at(cm: ColumnsView, r: CellRef, cell: Cell, r2: CellRef, rows: u32, cols: u32)
    requires
        spec_cols_wf(cm, rows, cols),
    ensures
        spec_cells_at(spec_cells_put(cm, r, cell), r) == Some(cell),
        r2 != r ==> spec_cells_at(spec_cells_put(cm, r, cell), r2) == spec_cells_at(cm, r2),
{
    let s = if cm.dom().contains(r.col) {
        cm[r.col]
    } else {
        Seq::<(u32, Cell)>::empty()
    };
    if cm.dom().contains(r.col) {
        assert(spec_keys_unique(s));
    }
    lemma_entries_put_find(s, r.row, cell, r.row);
    lemma_entries_put_find(s, r.row, cell, r2.row);
    let cm2 = spec_cells_put(cm, r, cell);
    if r2 != r {
        if r2.col != r.col {
            assert(cm2.dom().contains(r2.col) == cm.dom().contains(r2.col));
            if cm.dom().contains(r2.col) {
                assert(cm2[r2.col] == cm[r2.col]);
            }
        } else {
            assert(r2.row != r.row);
            if spec_find_key(s, r2.row) >= 0 {
                if !cm.dom().contains(r.col) {
                    assert(spec_find_key(Seq::<(u32, Cell)>::empty(), r2.row) < 0);
                }
            }
        }
    }
}

/// The stored-cell count of two column maps that differ in one column
/// differs exactly by that column's length difference.
pub proof fn lemma_count_delta(cm: ColumnsView, cm2: ColumnsView, col: u32, b: int)
    requires
        b <= 0x1_0000_0000,
        forall|x: u32|
            x != col ==> (#[trigger] cm2.dom().contains(x) == cm.dom().contains(x) && (
            cm.dom().contains(x) ==> cm2[x] == cm[x])),
    ensures
        spec_count_below(cm2, b) + (if col < b && cm.dom().contains(col) {
            cm[col].len()
        } else {
            0
        }) == spec_count_below(cm, b) + (if col < b && cm2.dom().contains(col) {
            cm2[col].len()
        } else {
            0
        }),
    decreases b,
{
    if b > 0 {
        lemma_count_delta(cm, cm2, col, b - 1);
        let x = (b - 1) as u32;
        assert(x as int == b - 1);
        if x != col {
            assert(cm2.dom().contains(x) == cm.dom().contains(x) && (cm.dom().contains(x)
                ==> cm2[x] == cm[x]));
        }
    }
}

/// The sparse invariant: emptying a cell that carries no formula and no
/// format removes it from the store, and the stored-cell count goes down
/// by exactly one; emptying an absent cell changes nothing.
pub proof fn lemma_sparse_empty(cm: ColumnsView, r: CellRef, rows: u32, cols: u32)
    requires
        spec_cols_wf(cm, rows, cols),
    ensures
        ({
            let cm2 = spec_cells_set_value(cm, r, CellValue::Empty);
            &&& (match spec_cells_at(cm, r) {
                Some(c) => (c.formula is None && c.format is None) ==> (spec_cells_at(cm2, r)
                    is None && spec_count_below(cm2, cols as int) + 1 == spec_count_below(
                    cm,
                    cols as int,
                )),
                None => cm2 == cm,
            })
        }),
{
    let cm2 = spec_cells_set_value(cm, r, CellValue::Empty);
    match spec_cells_at(cm, r) {
        None => {
        },
        Some(c) => {
            if c.formula is None && c.format is None {
                let s = cm[r.col];
                let i = spec_find_key(s, r.row);
                lemma_find_key_props(s, r.row);
                assert(cm.dom().contains(r.col));
                assert(r.col < cols);
                let s2 = s.remove(i);
                // The removed row key is gone from the rest.
                assert forall|j: int| 0 <= j < s2.len() implies (#[trigger] s2[j]).0
                    != r.row by {
                    if j < i {
                        assert(s2[j] == s[j]);
                    } else {
                        assert(s2[j] == s[j + 1]);
                    }
                }
                lemma_find_key_props(s2, r.row);
                if spec_find_key(s2, r.row) >= 0 {
                    assert(false);
                }
                if s2.len() == 0 {
                    assert(cm2 == cm.remove(r.col));
                    assert(!cm2.dom().contains(r.col));
                    lemma_count_delta(cm, cm2, r.col, cols as int);
                } else {
                    assert(cm2 == cm.insert(r.col, s2));
                    assert(spec_cells_at(cm2, r) is None);
                    lemma_count_delta(cm, cm2, r.col, cols as int);
                }
            }
        },
    }
}

/// One column's entries as flat records.
pub open spec fn spec_col_records(col: u32, s: Seq<(u32, Cell)>) -> Seq<(u32, u32, Cell)> {
    s.map_values(|p: (u32, Cell)| (col, p.0, p.1))
}

/// The stored cells of the columns below `cend`, flattened to
/// (column, row, cell) records, column by column in storage order.
pub open spec fn spec_grid_records(cm: ColumnsView, c: int, cend: int) -> Seq<(u32, u32, Cell)>
    decreases cend - c,
{
    if c >= cend || c < 0 {
        Seq::empty()
    } else {
        (if cm.dom().contains(c as u32) {
            spec_col_records(c as u32, cm[c as u32])
        } else {
            Seq::empty()
        }) + spec_grid_records(cm, c + 1, cend)
    }
}

/// Replaying flat records onto columns, first record first.
pub open spec fn spec_rebuild(cm: ColumnsView, recs: Seq<(u32, u32, Cell)>) -> ColumnsView
    decreases recs.len(),
{
    if recs.len() == 0 {
        cm
    } else {
        spec_rebuild(
            spec_cells_put(cm, CellRef { row: recs[0].1, col: recs[0].0 }, recs[0].2),
            recs.drop_first(),
        )
    }
}

/// Rebuilding one column's records appends its entries in order.
pub proof fn lemma_rebuild_column(
    cm: ColumnsView,
    col: u32,
    prefix: Seq<(u32, Cell)>,
    suffix: Seq<(u32, Cell)>,
)
    requires
        cm.dom().contains(col),
        cm[col] == prefix,
        spec_keys_unique(prefix + suffix),
    ensures
        spec_rebuild(cm, spec_col_records(col, suffix)) == cm.insert(col, prefix + suffix),
    decreases suffix.len(),
{
    if suffix.len() == 0 {
        assert(prefix + suffix =~= prefix);
        assert(cm.insert(col, prefix) =~= cm);
        assert(spec_col_records(col, suffix) =~= Seq::<(u32, u32, Cell)>::empty());
    } else {
        let head = suffix[0];
        let recs = spec_col_records(col, suffix);
        assert(recs[0] == (col, head.0, head.1));
        assert(recs.drop_first() =~= spec_col_records(col, suffix.drop_first()));
        // The appended key is fresh in the prefix.
        lemma_find_key_props(prefix, head.0);
        if spec_find_key(prefix, head.0) >= 0 {
            let i = spec_find_key(prefix, head.0);
            assert((prefix + suffix)[i] == prefix[i]);
            assert((prefix + suffix)[prefix.len() as int] == head);
            assert(false);
        }
        let cm1 = spec_cells_put(cm, CellRef { row: head.0, col }, head.1);
        assert(cm1 == cm.insert(col, prefix.push((head.0, head.1))));
        assert(prefix.push(head) =~= prefix.push((head.0, head.1)));
        assert forall|x: int, y: int|
            0 <= x < y < (prefix.push(head) + suffix.drop_first()).len() implies (
        #[trigger] (prefix.push(head) + suffix.drop_first())[x]).0 != (#[trigger] (prefix.push(
            head,
        ) + suffix.drop_first())[y]).0 by {
            assert((prefix.push(head) + suffix.drop_first())[x] == (prefix + suffix)[x]);
            assert((prefix.push(head) + suffix.drop_first())[y] == (prefix + suffix)[y]);
        }
        lemma_rebuild_column(cm1, col, prefix.push(head), suffix.drop_first());
        assert(prefix.push(head) + suffix.drop_first() =~= prefix + suffix);
        assert(cm1.insert(col, prefix.push(head) + suffix.drop_first()) =~= cm.insert(
            col,
            prefix + suffix,
        ));
    }
}

/// Rebuilding a fresh column inserts its entries whole.
pub proof fn lemma_rebuild_fresh_column(cm: ColumnsView, col: u32, s: Seq<(u32, Cell)>)
    requires
        !cm.dom().contains(col),
        spec_keys_unique(s),
        s.len() > 0,
    ensures
        spec_rebuild(cm, spec_col_records(col, s)) == cm.insert(col, s),
{
    let head = s[0];
    let recs = spec_col_records(col, s);
    assert(recs[0] == (col, head.0, head.1));
    assert(recs.drop_first() =~= spec_col_records(col, s.drop_first()));
    let cm1 = spec_cells_put(cm, CellRef { row: head.0, col }, head.1);
    assert(spec_find_key(Seq::<(u32, Cell)>::empty(), head.0) < 0);
    assert(cm1 == cm.insert(col, Seq::<(u32, Cell)>::empty().push((head.0, head.1))));
    assert(Seq::<(u32, Cell)>::empty().push((head.0, head.1)) =~= seq![head]);
    assert forall|x: int, y: int|
        0 <= x < y < (seq![head] + s.drop_first()).len() implies (#[trigger] (seq![head]
        + s.drop_first())[x]).0 != (#[trigger] (seq![head] + s.drop_first())[y]).0 by {
        assert((seq![head] + s.drop_first())[x] == s[x]);
        assert((seq![head] + s.drop_first())[y] == s[y]);
    }
    lemma_rebuild_column(cm.insert(col, seq![head]), col, seq![head], s.drop_first());
    assert(cm1 == cm.insert(col, seq![head]));
    assert(seq![head] + s.drop_first() =~= s);
    assert(cm.insert(col, seq![head]).insert(col, seq![head] + s.drop_first()) =~= cm.insert(
        col,
        s,
    ));
}

/// Rebuilding distributes over record concatenation.
pub proof fn lemma_rebuild_concat(cm: ColumnsView, a: Seq<(u32, u32, Cell)>, b: Seq<(u32, u32, Cell)>)
    ensures
        spec_rebuild(cm, a + b) == spec_rebuild(spec_rebuild(cm, a), b),
    decreases a.len(),
{
    if a.len() == 0 {
        assert(a + b =~= b);
    } else {
        assert((a + b)[0] == a[0]);
        assert((a + b).drop_first() =~= a.drop_first() + b);
        lemma_rebuild_concat(
            spec_cells_put(cm, CellRef { row: a[0].1, col: a[0].0 }, a[0].2),
            a.drop_first(),
            b,
        );
    }
}

/// The flat-record round trip: replaying a well-formed grid's records
/// onto empty columns rebuilds exactly the same columns.
pub proof fn lemma_records_roundtrip(cm: ColumnsView, rows: u32, cols: u32)
    requires
        spec_cols_wf(cm, rows, cols),
    ensures
        spec_rebuild(Map::empty(), spec_grid_records(cm, 0, cols as int)) == cm,
{
    lemma_records_roundtrip_step(cm, rows, cols, Map::empty(), 0);
}

/// Induction step over columns for the record round trip.
pub proof fn lemma_records_roundtrip_step(
    cm: ColumnsView,
    rows: u32,
    cols: u32,
    acc: ColumnsView,
    c: int,
)
    requires
        spec_cols_wf(cm, rows, cols),
        0 <= c <= cols as int,
        forall|x: u32|
            #[trigger] acc.dom().contains(x) <==> (cm.dom().contains(x) && (x as int) < c),
        forall|x: u32| acc.dom().contains(x) ==> #[trigger] acc[x] == cm[x],
    ensures
        spec_rebuild(acc, spec_grid_records(cm, c, cols as int)) == cm,
    decreases cols as int - c,
{
    if c >= cols as int {
        assert(spec_grid_records(cm, c, cols as int) =~= Seq::<(u32, u32, Cell)>::empty());
        assert forall|x: u32| #[trigger] acc.dom().contains(x) <==> cm.dom().contains(x) by {
            if cm.dom().contains(x) {
                assert(x < cols);
            }
        }
        assert(acc =~= cm);
    } else {
        let col = c as u32;
        let here = if cm.dom().contains(col) {
            spec_col_records(col, cm[col])
        } else {
            Seq::<(u32, u32, Cell)>::empty()
        };
        lemma_rebuild_concat(acc, here, spec_grid_records(cm, c + 1, cols as int));
        let acc2 = spec_rebuild(acc, here);
        if cm.dom().contains(col) {
            assert(!acc.dom().contains(col));
            lemma_rebuild_fresh_column(acc, col, cm[col]);
            assert(acc2 == acc.insert(col, cm[col]));
        } else {
            assert(here =~= Seq::<(u32, u32, Cell)>::empty());
            assert(acc2 == acc);
        }
        lemma_records_roundtrip_step(cm, rows, cols, acc2, c + 1);
    }
}

impl Grid {
    /// The stored cells as flat (column, row, cell) records, column by
    /// column in storage order: the persisted form of the grid's
    /// contents.
    pub fn to_records(&self) -> (r: Vec<(u32, u32, Cell)>)
        requires
            self.wf(),
        ensures
            r@ == spec_grid_records(self.cells(), 0, self.cols as int),
    {
        let mut out: Vec<(u32, u32, Cell)> = Vec::new();
        let mut c: u64 = 0;
        proof {
            assert(out@ =~= Seq::<(u32, u32, Cell)>::empty());
            assert(spec_grid_records(self.cells(), 0, self.cols as int) =~= out@
                + spec_grid_records(self.cells(), c as int, self.cols as int));
        }
        while c < self.cols as u64
            invariant
                self.wf(),
                0 <= c <= self.cols as int,
                spec_grid_records(self.cells(), 0, self.cols as int) =~= out@
                    + spec_grid_records(self.cells(), c as int, self.cols as int),
            decreases self.cols as int - c,
        {
            match self.columns.get(&(c as u32)) {
                Some(im) => {
                    let entries = cm_entries(im);
                    let ghost col_seq = col_entries(self.columns@[c as u32]);
                    proof {
                        assert(self.cells().dom().contains(c as u32));
                        assert(self.cells()[c as u32] == col_seq);
                    }
                    let m: usize = entries.len();
                    let ghost out_mid = out@;
                    let mut i: usize = 0;
                    proof {
                        assert(spec_col_records(c as u32, col_seq).subrange(0, 0)
                            =~= Seq::<(u32, u32, Cell)>::empty());
                    }
                    while i < m
                        invariant
                            m == entries@.len(),
                            entries@ == col_seq,
                            0 <= i <= m,
                            c <= 0xffffffffu64,
                            out@ =~= out_mid + spec_col_records(c as u32, col_seq).subrange(
                                0,
                                i as int,
                            ),
                        decreases m - i,
                    {
                        let (row, cell) = (entries[i].0, entries[i].1.duplicate());
                        proof {
                            assert(spec_col_records(c as u32, col_seq)[i as int] == (
                            c as u32,
                            col_seq[i as int].0,
                            col_seq[i as int].1,
                            ));
                            assert(spec_col_records(c as u32, col_seq).subrange(0, i + 1)
                                =~= spec_col_records(c as u32, col_seq).subrange(0, i as int)
                                .push(spec_col_records(c as u32, col_seq)[i as int]));
                        }
                        out.push((c as u32, row, cell));
                        i += 1;
                    }
                    proof {
                        assert(spec_col_records(c as u32, col_seq).subrange(0, m as int)
                            =~= spec_col_records(c as u32, col_seq));
                        assert(spec_grid_records(self.cells(), c as int, self.cols as int)
                            == spec_col_records(c as u32, col_seq) + spec_grid_records(
                            self.cells(),
                            c as int + 1,
                            self.cols as int,
                        ));
                        assert(out_mid + (spec_col_records(c as u32, col_seq)
                            + spec_grid_records(self.cells(), c as int + 1, self.cols as int))
                            =~= out@ + spec_grid_records(self.cells(), c as int + 1,
                            self.cols as int));
                    }
                },
                None => {
                    proof {
                        assert(!self.cells().dom().contains(c as u32));
                        assert(spec_grid_records(self.cells(), c as int, self.cols as int)
                            =~= spec_grid_records(self.cells(), c as int + 1, self.cols as int));
                    }
                },
            }
            c += 1;
        }
        proof {
            assert(spec_grid_records(self.cells(), c as int, self.cols as int)
                =~= Seq::<(u32, u32, Cell)>::empty());
            assert(out@ + Seq::<(u32, u32, Cell)>::empty() =~= out@);
        }
        out
    }

    /// Store a whole cell at a reference, replacing any cell there.
    pub fn insert_cell(&mut self, cell_ref: CellRef, cell: Cell) -> (r: Result<(), GridError>)
        requires
            old(self).wf(),
        ensures
            final(self).wf(),
            final(self).rows == old(self).rows,
            final(self).cols == old(self).cols,
            final(self).widths() == old(self).widths(),
            final(self).heights() == old(self).heights(),
            final(self).spec_default_col_width() == old(self).spec_default_col_width(),
            final(self).spec_default_row_height() == old(self).spec_default_row_height(),
            (r matches Err(e) ==> e matches GridError::OutOfBounds(b) && b == cell_ref
                && !(cell_ref.row < old(self).rows && cell_ref.col < old(self).cols)
                && final(self).cells() == old(self).cells()),
            (r is Ok ==> cell_ref.row < old(self).rows && cell_ref.col < old(self).cols
                && final(self).cells() == spec_cells_put(old(self).cells(), cell_ref, cell)),
    {
        if !self.check_bounds(cell_ref) {
            return Err(GridError::OutOfBounds(cell_ref));
        }
        let ghost cm0 = self.cells();
        let col = cell_ref.col;
        let row = cell_ref.row;
        let had_col = self.columns.contains_key(&col);
        let mut im = match self.columns.remove(&col) {
            Some(im) => im,
            None => cm_new(),
        };
        let ghost entries0 = if had_col {
            cm0[col]
        } else {
            Seq::<(u32, Cell)>::empty()
        };
        proof {
            assert(col_entries(im) == entries0);
            lemma_find_key_props(entries0, row);
        }
        cm_insert(&mut im, row, cell);
        let ghost e2 = col_entries(im);
        self.columns.insert(col, im);
        proof {
            assert(self.cells() =~= cm0.insert(col, e2));
            assert(spec_cells_put(cm0, cell_ref, cell) =~= cm0.insert(col, e2));
            if had_col {
                assert(cm0.dom().contains(col));
            }
            lemma_entries_put_bounds(entries0, row, cell, self.rows);
            lemma_put_wf(cm0, self.rows, self.cols, cell_ref, e2);
        }
        Ok(())
    }

    /// Rebuild a grid from its bounds and flat records, first record
    /// first.  The inverse of `to_records` on every well-formed grid.
    pub fn from_records(rows: u32, cols: u32, recs: &Vec<(u32, u32, Cell)>) -> (r: Result<
        Grid,
        GridError,
    >)
        ensures
            (r matches Ok(g) ==> g.wf() && g.rows == rows && g.cols == cols && g.cells()
                == spec_rebuild(
                Map::empty(),
                recs@.map_values(|t: (u32, u32, Cell)| (t.0, t.1, t.2)),
            ) && g.widths() == Map::<u32, u32>::empty() && g.heights() == Map::<u32, u32>::empty()),
            (r is Err ==> exists|i: int|
                0 <= i < recs@.len() && !((#[trigger] recs@[i]).1 < rows && recs@[i].0 < cols)),
            ((forall|i: int|
                0 <= i < recs@.len() ==> (#[trigger] recs@[i]).1 < rows && recs@[i].0 < cols)
                ==> r is Ok),
    {
        let mut g = Grid::new(rows, cols);
        let n: usize = recs.len();
        let ghost rseq = recs@.map_values(|t: (u32, u32, Cell)| (t.0, t.1, t.2));
        proof {
            assert(rseq =~= recs@);
            assert(g.cells() =~= Map::<u32, Seq<(u32, Cell)>>::empty());
            assert(recs@.subrange(0, n as int) =~= recs@);
        }
        let mut i: usize = 0;
        while i < n
            invariant
                n == recs@.len(),
                0 <= i <= n,
                g.wf(),
                g.rows == rows,
                g.cols == cols,
                g.widths() == Map::<u32, u32>::empty(),
                g.heights() == Map::<u32, u32>::empty(),
                spec_rebuild(Map::empty(), recs@) == spec_rebuild(
                    g.cells(),
                    recs@.subrange(i as int, n as int),
                ),
            decreases n - i,
        {
            let (col, row, cell) = {
                let rec = &recs[i];
                (rec.0, rec.1, rec.2.duplicate())
            };
            proof {
                assert(recs@.subrange(i as int, n as int)[0] == recs@[i as int]);
                assert(recs@.subrange(i as int, n as int).drop_first() =~= recs@.subrange(
                    i + 1,
                    n as int,
                ));
            }
            match g.insert_cell(CellRef { row, col }, cell) {
                Ok(_) => {
                },
                Err(_) => {
                    proof {
                        assert(!(recs@[i as int].1 < rows && recs@[i as int].0 < cols));
                    }
                    return Err(GridError::OutOfBounds(CellRef { row, col }));
                },
            }
            i += 1;
        }
        proof {
            assert(recs@.subrange(n as int, n as int) =~= Seq::<(u32, u32, Cell)>::empty());
            assert(rseq =~= recs@);
        }
        Ok(g)
    }
}

/// The cell read back after a removal: the removed reference reads
/// nothing, every other reference reads as before.
pub proof fn lemma_cells_remove_at(cm: ColumnsView, r: CellRef, r2: CellRef, rows: u32, cols: u32)
    requires
        spec_cols_wf(cm, rows, cols),
    ensures
        spec_cells_at(spec_cells_remove(cm, r), r) is None,
        r2 != r ==> spec_cells_at(spec_cells_remove(cm, r), r2) == spec_cells_at(cm, r2),
{
    let cm2 = spec_cells_remove(cm, r);
    if !cm.dom().contains(r.col) {
        return;
    }
    let s = cm[r.col];
    lemma_find_key_props(s, r.row);
    let i = spec_find_key(s, r.row);
    if i < 0 {
        return;
    }
    let s2 = s.remove(i);
    // Keys of the remaining entries, and absence of the removed key.
    assert forall|j: int| 0 <= j < s2.len() implies (#[trigger] s2[j]).0 != r.row by {
        if j < i {
            assert(s2[j] == s[j]);
        } else {
            assert(s2[j] == s[j + 1]);
        }
    }
    lemma_find_key_props(s2, r.row);
    if spec_find_key(s2, r.row) >= 0 {
        assert(false);
    }
    if r2 != r {
        if r2.col != r.col {
        } else {
            // Same column, different row: the entry for that row (or its
            // absence) is untouched by removing one other entry.
            lemma_find_key_props(s, r2.row);
            lemma_find_key_props(s2, r2.row);
            let j = spec_find_key(s, r2.row);
            let j2 = spec_find_key(s2, r2.row);
            if j >= 0 {
                assert(s[j].0 == r2.row);
                assert(j != i);
                if j2 < 0 {
                    let jj = if j < i {
                        j
                    } else {
                        j - 1
                    };
                    assert(s2[jj] == s[j]);
                    assert(false);
                }
                assert(s2[j2].0 == r2.row);
                // Uniqueness maps the found entry back to the original.
                let back = if j2 < i {
                    j2
                } else {
                    j2 + 1
                };
                assert(s2[j2] == s[back]);
                assert(s[back].0 == r2.row);
                assert(back == j) by {
                    if back != j {
                        assert(s[back].0 != s[j].0);
                    }
                }
            } else {
                if j2 >= 0 {
                    assert(s2[j2].0 == r2.row);
                    let back = if j2 < i {
                        j2
                    } else {
                        j2 + 1
                    };
                    assert(s2[j2] == s[back]);
                    assert(s[back].0 == r2.row);
                    assert(false);
                }
            }
            if s2.len() == 0 {
                assert(spec_find_key(s, r2.row) < 0) by {
                    if spec_find_key(s, r2.row) >= 0 {
                        assert(s.len() == 1);
                        assert(spec_find_key(s, r2.row) == i);
                    }
                }
            }
        }
    }
}

impl Grid {
    /// Remove a cell wholesale, dropping an emptied column from the
    /// store; removing an absent cell changes nothing.
    pub fn remove_cell(&mut self, cell_ref: CellRef)
        requires
            old(self).wf(),
        ensures
            final(self).wf(),
            final(self).rows == old(self).rows,
            final(self).cols == old(self).cols,
            final(self).widths() == old(self).widths(),
            final(self).heights() == old(self).heights(),
            final(self).spec_default_col_width() == old(self).spec_default_col_width(),
            final(self).spec_default_row_height() == old(self).spec_default_row_height(),
            final(self).cells() == spec_cells_remove(old(self).cells(), cell_ref),
    {
        let ghost cm0 = self.cells();
        let col = cell_ref.col;
        let row = cell_ref.row;
        let mut im = match self.columns.remove(&col) {
            Some(im) => im,
            None => {
                proof {
                    assert(self.cells() =~= cm0);
                    assert(spec_cells_remove(cm0, cell_ref) =~= cm0);
                }
                return;
            },
        };
        let ghost entries0 = cm0[col];
        proof {
            assert(col_entries(im) == entries0);
            lemma_find_key_props(entries0, row);
        }
        let had = match cm_get(&im, row) {
            Some(_) => true,
            None => false,
        };
        if !had {
            self.columns.insert(col, im);
            proof {
                assert(self.cells() =~= cm0);
                assert(spec_cells_remove(cm0, cell_ref) =~= cm0);
            }
            return;
        }
        cm_shift_remove(&mut im, row);
        if cm_len(&im) == 0 {
            proof {
                assert(self.cells() =~= cm0.remove(col));
                assert(spec_cells_remove(cm0, cell_ref) =~= cm0.remove(col));
                lemma_remove_col_wf(cm0, self.rows, self.cols, col);
            }
            return;
        }
        let ghost e2 = col_entries(im);
        self.columns.insert(col, im);
        proof {
            assert(self.cells() =~= cm0.insert(col, e2));
            assert(spec_cells_remove(cm0, cell_ref) =~= cm0.insert(col, e2));
            let i = spec_find_key(entries0, row);
            assert forall|j: int| 0 <= j < e2.len() implies (#[trigger] e2[j]).0 < self.rows by {
                assert(cm0.dom().contains(col));
                if j < i {
                    assert(e2[j] == entries0[j]);
                } else {
                    assert(e2[j] == entries0[j + 1]);
                }
            }
            lemma_put_wf(cm0, self.rows, self.cols, cell_ref, e2);
        }
    }
}

/// Every record of a change report is the display record of the cell
/// stored at its own coordinates.
pub proof fn lemma_diff_cells_records(cm: ColumnsView, refs: Seq<CellRef>)
    ensures
        forall|i: int|
            0 <= i < spec_diff_cells(cm, refs).len() ==> {
                let d = #[trigger] spec_diff_cells(cm, refs)[i];
                spec_cells_at(cm, CellRef { row: d.row, col: d.col }) is Some && d
                    == spec_cell_data(
                    d.row,
                    d.col,
                    spec_cells_at(cm, CellRef { row: d.row, col: d.col })->Some_0,
                )
            },
    decreases refs.len(),
{
    if refs.len() > 0 {
        lemma_diff_cells_records(cm, refs.drop_first());
        let rest = spec_diff_cells(cm, refs.drop_first());
        match spec_cells_at(cm, refs[0]) {
            Some(c) => {
                let d0 = spec_cell_data(refs[0].row, refs[0].col, c);
                assert(CellRef { row: d0.row, col: d0.col } == refs[0]);
                assert forall|i: int|
                    0 <= i < spec_diff_cells(cm, refs).len() implies {
                    let d = #[trigger] spec_diff_cells(cm, refs)[i];
                    spec_cells_at(cm, CellRef { row: d.row, col: d.col }) is Some && d
                        == spec_cell_data(
                        d.row,
                        d.col,
                        spec_cells_at(cm, CellRef { row: d.row, col: d.col })->Some_0,
                    )
                } by {
                    if i > 0 {
                        assert(spec_diff_cells(cm, refs)[i] == rest[i - 1]);
                    }
                }
            },
            None => {
            },
        }
    }
}

} // verus!
