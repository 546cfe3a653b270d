//! The engine façade: one object holding the grid and the formula
//! engine, taking edits and returning the display records of every cell
//! an edit changed.

use vstd::prelude::*;
use vstd::string::StrSliceExecFns;
use crate::cell::{Cell, CellRef, CellValue, CellFormat};
use crate::engine::FormulaEngine;
use crate::formula::FormulaError;
use crate::grid::{Grid, GridError, GridDiff, GridPatch, CellData, CellUpdate, spec_cells_at};

verus! {

/// The spreadsheet engine: sparse cell storage plus formula tracking.
pub struct SheetEngine {
    pub grid: Grid,
    pub formula_engine: FormulaEngine,
}

/// Whether edited text is a formula (it begins with an equals sign).
pub open spec fn spec_is_formula_text(s: Seq<char>) -> bool {
    s.len() > 0 && s[0] == '='
}

/// The value a literal edit stores, as a model: the parsed literal, or
/// the text itself.
pub open spec fn spec_lit_view(s: Seq<char>) -> crate::cell::ValueView {
    match crate::cell::spec_parse_value_num(crate::text::spec_trim(s)) {
        Some(v) => v@,
        None => crate::cell::ValueView::Text(s),
    }
}

/// The edge set after registering a formula for `key`: its old incoming
/// edges replaced by one edge per dependency of the new AST.
pub open spec fn spec_edges_after_formula(
    edges: Set<(u64, u64)>,
    key: u64,
    nv: crate::formula::NodeView,
) -> Set<(u64, u64)> {
    Set::new(
        |e: (u64, u64)|
            (edges.contains(e) && e.1 != key) || (e.1 == key
                && crate::engine::spec_dep_key_set(nv).contains(e.0)),
    )
}

/// The edge set after dropping `key`'s formula: its incoming edges gone.
pub open spec fn spec_edges_after_literal(edges: Set<(u64, u64)>, key: u64) -> Set<(u64, u64)> {
    Set::new(|e: (u64, u64)| edges.contains(e) && e.1 != key)
}

/// Whether one update can be applied: its cell is in bounds and, when it
/// carries a formula, the formula parses.
pub open spec fn spec_update_ok(upd: CellUpdate, rows: u32, cols: u32) -> bool {
    &&& ((upd.formula is Some || upd.value is Some) ==> upd.row < rows && upd.col < cols)
    &&& (upd.formula is Some ==> crate::formula::spec_parse_expr(
        crate::formula::spec_formula_body(upd.formula->Some_0@),
    ) is Some)
}

/// What a patch does to the engine, update by update in list order: a
/// formula wins over a value and replaces the cell's registration; a
/// plain value drops it; an empty update changes nothing.
pub open spec fn spec_patch_engine(
    fmv: Map<u64, crate::formula::NodeView>,
    edges: Set<(u64, u64)>,
    updates: Seq<CellUpdate>,
) -> (Map<u64, crate::formula::NodeView>, Set<(u64, u64)>)
    decreases updates.len(),
{
    if updates.len() == 0 {
        (fmv, edges)
    } else {
        let upd = updates[0];
        let key = crate::engine::spec_key(CellRef { row: upd.row, col: upd.col });
        let step = if upd.formula is Some {
            let nv = crate::formula::spec_parse_expr(
                crate::formula::spec_formula_body(upd.formula->Some_0@),
            );
            if nv is Some {
                (fmv.insert(key, nv->Some_0), spec_edges_after_formula(edges, key, nv->Some_0))
            } else {
                (fmv, edges)
            }
        } else if upd.value is Some {
            (fmv.remove(key), spec_edges_after_literal(edges, key))
        } else {
            (fmv, edges)
        };
        spec_patch_engine(step.0, step.1, updates.drop_first())
    }
}

/// The values and attributes of the grid's cells, as one state.
pub type WriteState = (crate::eval::ValsView, crate::eval::AttrsView);

/// Whether a grid's columns carry exactly this write state.
pub open spec fn spec_state_matches(cm: crate::grid::ColumnsView, st: WriteState) -> bool {
    &&& crate::eval::spec_grid_vals(cm) == st.0
    &&& crate::eval::spec_grid_attrs(cm) == st.1
}

/// What one update writes into the cells: a parsing formula stores its
/// text with an empty placeholder value; a plain value stores the parsed
/// literal (the empty value clearing the cell when no attributes
/// remain); an empty update writes nothing.
pub open spec fn spec_write_step(st: WriteState, upd: CellUpdate) -> WriteState {
    let r = CellRef { row: upd.row, col: upd.col };
    if upd.formula is Some {
        match crate::formula::spec_parse_expr(
            crate::formula::spec_formula_body(upd.formula->Some_0@),
        ) {
            Some(nv) => (
                st.0.insert(r, crate::cell::ValueView::Empty),
                st.1.insert(r, (Some(upd.formula->Some_0@), None)),
            ),
            None => st,
        }
    } else if upd.value is Some {
        let pv = spec_lit_view(upd.value->Some_0@);
        if pv is Empty {
            if st.1.dom().contains(r) {
                if st.1[r].0 is None && st.1[r].1 is None {
                    (st.0.remove(r), st.1.remove(r))
                } else {
                    (st.0.insert(r, crate::cell::ValueView::Empty), st.1)
                }
            } else {
                st
            }
        } else {
            (st.0.insert(r, pv), st.1.insert(r, (None, None)))
        }
    } else {
        st
    }
}

/// The writes of a whole update list, first update first.
pub open spec fn spec_patch_writes(st: WriteState, updates: Seq<CellUpdate>) -> WriteState
    decreases updates.len(),
{
    if updates.len() == 0 {
        st
    } else {
        spec_write_step(spec_patch_writes(st, updates.drop_last()), updates.last())
    }
}

/// Index of the first inapplicable update, or the list's length.
pub open spec fn spec_first_bad(updates: Seq<CellUpdate>, rows: u32, cols: u32) -> nat
    decreases updates.len(),
{
    if updates.len() == 0 {
        0
    } else if !spec_update_ok(updates[0], rows, cols) {
        0
    } else {
        1 + spec_first_bad(updates.drop_first(), rows, cols)
    }
}

/// The first inapplicable update is exactly at the end of the first
/// applicable run.
pub proof fn lemma_first_bad_at(updates: Seq<CellUpdate>, rows: u32, cols: u32, k: int)
    requires
        0 <= k <= updates.len(),
        forall|x: int| 0 <= x < k ==> spec_update_ok(#[trigger] updates[x], rows, cols),
        k < updates.len() ==> !spec_update_ok(updates[k], rows, cols),
    ensures
        spec_first_bad(updates, rows, cols) == k,
    decreases updates.len(),
{
    if updates.len() > 0 && spec_update_ok(updates[0], rows, cols) {
        let t = updates.drop_first();
        assert forall|x: int| 0 <= x < k - 1 implies spec_update_ok(
            #[trigger] t[x],
            rows,
            cols,
        ) by {
            assert(t[x] == updates[x + 1]);
        }
        if k - 1 < t.len() {
            assert(t[k - 1] == updates[k]);
        }
        lemma_first_bad_at(t, rows, cols, k - 1);
    }
}

/// The touched cells of a patch, as packed keys, in update order.
pub open spec fn spec_touched_keys(updates: Seq<CellUpdate>) -> Seq<u64> {
    updates.map_values(
        |u: CellUpdate| crate::engine::spec_key(CellRef { row: u.row, col: u.col }),
    )
}

/// A chain of recalculations, one per touched key in order: each step
/// replays some admissible order for its key over the values so far.
pub open spec fn spec_recalc_chain(
    edges: Set<(u64, u64)>,
    fmv: Map<u64, crate::formula::NodeView>,
    vals: crate::eval::ValsView,
    rows: u32,
    cols: u32,
    touched: Seq<u64>,
    out: crate::eval::ValsView,
) -> bool
    decreases touched.len(),
{
    if touched.len() == 0 {
        out == vals
    } else {
        exists|keys: Seq<u64>|
            crate::engine::spec_admissible_order(edges, fmv, touched[0], keys)
                && (#[trigger] crate::engine::spec_replay(vals, rows, cols, fmv, keys)) is Some
                && spec_recalc_chain(
                edges,
                fmv,
                crate::engine::spec_replay(vals, rows, cols, fmv, keys)->Some_0,
                rows,
                cols,
                touched.drop_first(),
                out,
            )
    }
}

/// A chain extends by one recalculation at its end.
pub proof fn lemma_chain_snoc(
    edges: Set<(u64, u64)>,
    fmv: Map<u64, crate::formula::NodeView>,
    vals: crate::eval::ValsView,
    rows: u32,
    cols: u32,
    p: Seq<u64>,
    mid: crate::eval::ValsView,
    k: u64,
    keys: Seq<u64>,
    out: crate::eval::ValsView,
)
    requires
        spec_recalc_chain(edges, fmv, vals, rows, cols, p, mid),
        crate::engine::spec_admissible_order(edges, fmv, k, keys),
        crate::engine::spec_replay(mid, rows, cols, fmv, keys) == Some(out),
    ensures
        spec_recalc_chain(edges, fmv, vals, rows, cols, p.push(k), out),
    decreases p.len(),
{
    if p.len() == 0 {
        assert(mid == vals);
        assert(p.push(k)[0] == k);
        assert(p.push(k).drop_first() =~= Seq::<u64>::empty());
        assert(crate::engine::spec_replay(vals, rows, cols, fmv, keys) is Some);
        assert(spec_recalc_chain(
            edges,
            fmv,
            crate::engine::spec_replay(vals, rows, cols, fmv, keys)->Some_0,
            rows,
            cols,
            p.push(k).drop_first(),
            out,
        ));
    } else {
        let keys0 = choose|keys0: Seq<u64>|
            crate::engine::spec_admissible_order(edges, fmv, p[0], keys0) && (
            #[trigger] crate::engine::spec_replay(vals, rows, cols, fmv, keys0)) is Some
                && spec_recalc_chain(
                edges,
                fmv,
                crate::engine::spec_replay(vals, rows, cols, fmv, keys0)->Some_0,
                rows,
                cols,
                p.drop_first(),
                mid,
            );
        let mid0 = crate::engine::spec_replay(vals, rows, cols, fmv, keys0)->Some_0;
        lemma_chain_snoc(edges, fmv, mid0, rows, cols, p.drop_first(), mid, k, keys, out);
        assert(p.push(k)[0] == p[0]);
        assert(p.push(k).drop_first() =~= p.drop_first().push(k));
        assert(crate::engine::spec_admissible_order(edges, fmv, p.push(k)[0], keys0) && (
        crate::engine::spec_replay(vals, rows, cols, fmv, keys0)) is Some
            && spec_recalc_chain(edges, fmv, mid0, rows, cols, p.push(k).drop_first(), out));
    }
}


impl Grid {
    /// Apply a batch of updates in order (a formula wins over a literal
    /// value), then recalculate from every touched cell, folding the
    /// affected cells into one duplicate-free list in first-insertion
    /// order.
    #[verifier::rlimit(100)]
    #[verifier::spinoff_prover]
    pub fn apply_patch(&mut self, patch: &GridPatch, formula_engine: &mut FormulaEngine) -> (r:
        Result<Vec<CellRef>, GridError>)
        requires
            old(self).wf(),
            old(formula_engine).wf(),
        ensures
            final(self).wf(),
            final(formula_engine).wf(),
            final(self).rows == old(self).rows,
            final(self).cols == old(self).cols,
            final(self).widths() == old(self).widths(),
            final(self).heights() == old(self).heights(),
            final(self).spec_default_col_width() == old(self).spec_default_col_width(),
            final(self).spec_default_row_height() == old(self).spec_default_row_height(),
            // On success every update was applicable, the engine holds
            // exactly the folded registrations, and the returned list
            // starts with the touched cells in update order, the
            // recalculated rest folded in without duplicates.
            (r matches Ok(list) ==> {
                &&& forall|i: int|
                    0 <= i < patch.updates@.len() ==> spec_update_ok(
                        #[trigger] patch.updates@[i],
                        old(self).rows,
                        old(self).cols,
                    )
                &&& (crate::engine::spec_fmapv(final(formula_engine).fmap()),
                    final(formula_engine).edges()) == spec_patch_engine(
                    crate::engine::spec_fmapv(old(formula_engine).fmap()),
                    old(formula_engine).edges(),
                    patch.updates@,
                )
                &&& list@.len() >= patch.updates@.len()
                &&& forall|i: int|
                    0 <= i < patch.updates@.len() ==> #[trigger] list@[i] == (CellRef {
                        row: patch.updates@[i].row,
                        col: patch.updates@[i].col,
                    })
                &&& forall|i: int, j: int|
                    patch.updates@.len() <= i < list@.len() && 0 <= j < i ==> #[trigger] list@[j]
                        != #[trigger] list@[i]
            }),
            // On success the cells hold the writes of every update in
            // list order, then the committed results of a chain of
            // recalculations, one per touched cell in order.
            (r is Ok ==> {
                let w = spec_patch_writes(
                    (
                        crate::eval::spec_grid_vals(old(self).cells()),
                        crate::eval::spec_grid_attrs(old(self).cells()),
                    ),
                    patch.updates@,
                );
                &&& crate::eval::spec_grid_attrs(final(self).cells()) == w.1
                &&& spec_recalc_chain(
                    spec_patch_engine(
                        crate::engine::spec_fmapv(old(formula_engine).fmap()),
                        old(formula_engine).edges(),
                        patch.updates@,
                    ).1,
                    spec_patch_engine(
                        crate::engine::spec_fmapv(old(formula_engine).fmap()),
                        old(formula_engine).edges(),
                        patch.updates@,
                    ).0,
                    w.0,
                    old(self).rows,
                    old(self).cols,
                    spec_touched_keys(patch.updates@),
                    crate::eval::spec_grid_vals(final(self).cells()),
                )
            }),
            // A formula that does not parse propagates its parse error,
            // leaves its own cell unwritten, and performs no
            // recalculation: the cells hold exactly the writes of the
            // earlier updates.
            ({
                let fb = spec_first_bad(patch.updates@, old(self).rows, old(self).cols) as int;
                (fb < patch.updates@.len() && patch.updates@[fb].row < old(self).rows
                    && patch.updates@[fb].col < old(self).cols && patch.updates@[fb].formula
                    is Some && crate::formula::spec_parse_expr(
                    crate::formula::spec_formula_body(patch.updates@[fb].formula->Some_0@),
                ) is None) ==> (r matches Err(ge) && ge matches GridError::Formula(fe)
                    && fe matches crate::formula::FormulaError::Parse(_) && spec_state_matches(
                    final(self).cells(),
                    spec_patch_writes(
                        (
                            crate::eval::spec_grid_vals(old(self).cells()),
                            crate::eval::spec_grid_attrs(old(self).cells()),
                        ),
                        patch.updates@.subrange(0, fb),
                    ),
                ))
            }),
            // An out-of-bounds update is rejected with its reference,
            // the same way.
            ({
                let fb = spec_first_bad(patch.updates@, old(self).rows, old(self).cols) as int;
                (fb < patch.updates@.len() && (patch.updates@[fb].formula is Some
                    || patch.updates@[fb].value is Some) && !(patch.updates@[fb].row < old(
                    self,
                ).rows && patch.updates@[fb].col < old(self).cols)) ==> (r matches Err(ge)
                    && ge matches GridError::OutOfBounds(b) && b == (CellRef {
                    row: patch.updates@[fb].row,
                    col: patch.updates@[fb].col,
                }) && spec_state_matches(
                    final(self).cells(),
                    spec_patch_writes(
                        (
                            crate::eval::spec_grid_vals(old(self).cells()),
                            crate::eval::spec_grid_attrs(old(self).cells()),
                        ),
                        patch.updates@.subrange(0, fb),
                    ),
                ))
            }),
            // A failed recalculation leaves all writes applied, the
            // completed recalculations committed, and nothing else: the
            // attributes are the written ones and the values are a chain
            // over some prefix of the touched cells.
            ((r is Err && (forall|i: int|
                0 <= i < patch.updates@.len() ==> spec_update_ok(
                    #[trigger] patch.updates@[i],
                    old(self).rows,
                    old(self).cols,
                ))) ==> {
                let w = spec_patch_writes(
                    (
                        crate::eval::spec_grid_vals(old(self).cells()),
                        crate::eval::spec_grid_attrs(old(self).cells()),
                    ),
                    patch.updates@,
                );
                &&& crate::eval::spec_grid_attrs(final(self).cells()) == w.1
                &&& exists|t: int|
                    0 <= t <= patch.updates@.len() && #[trigger] spec_recalc_chain(
                        spec_patch_engine(
                            crate::engine::spec_fmapv(old(formula_engine).fmap()),
                            old(formula_engine).edges(),
                            patch.updates@,
                        ).1,
                        spec_patch_engine(
                            crate::engine::spec_fmapv(old(formula_engine).fmap()),
                            old(formula_engine).edges(),
                            patch.updates@,
                        ).0,
                        w.0,
                        old(self).rows,
                        old(self).cols,
                        spec_touched_keys(patch.updates@).subrange(0, t),
                        crate::eval::spec_grid_vals(final(self).cells()),
                    )
            }),
            // Success is owed when every update is applicable and every
            // recalculation of a touched cell runs through from any
            // value state.
            ((forall|i: int|
                0 <= i < patch.updates@.len() ==> spec_update_ok(
                    #[trigger] patch.updates@[i],
                    old(self).rows,
                    old(self).cols,
                )) && (forall|vals: crate::eval::ValsView, i: int|
                0 <= i < patch.updates@.len() ==> #[trigger] crate::engine::spec_recalc_succeeds(
                    spec_patch_engine(
                        crate::engine::spec_fmapv(old(formula_engine).fmap()),
                        old(formula_engine).edges(),
                        patch.updates@,
                    ).1,
                    spec_patch_engine(
                        crate::engine::spec_fmapv(old(formula_engine).fmap()),
                        old(formula_engine).edges(),
                        patch.updates@,
                    ).0,
                    vals,
                    old(self).rows,
                    old(self).cols,
                    crate::engine::spec_key(
                        CellRef { row: patch.updates@[i].row, col: patch.updates@[i].col },
                    ),
                )) ==> r is Ok),
    {
        let ghost fmv0 = crate::engine::spec_fmapv(formula_engine.fmap());
        let ghost edges0 = formula_engine.edges();
        let ghost ups = patch.updates@;
        let ghost target = spec_patch_engine(fmv0, edges0, ups);
        let ghost st0: WriteState = (
            crate::eval::spec_grid_vals(self.cells()),
            crate::eval::spec_grid_attrs(self.cells()),
        );
        let ghost w = spec_patch_writes(st0, ups);
        let mut affected: Vec<CellRef> = Vec::new();
        let n: usize = patch.updates.len();
        proof {
            assert(ups.subrange(0, n as int) =~= ups);
            assert(ups.subrange(0, 0) =~= Seq::<CellUpdate>::empty());
        }
        let mut i: usize = 0;
        while i < n
            invariant
                n == patch.updates@.len(),
                ups == patch.updates@,
                0 <= i <= n,
                self.wf(),
                formula_engine.wf(),
                self.rows == old(self).rows,
                self.cols == old(self).cols,
                self.widths() == old(self).widths(),
                self.heights() == old(self).heights(),
                self.spec_default_col_width() == old(self).spec_default_col_width(),
                self.spec_default_row_height() == old(self).spec_default_row_height(),
                st0 == (
                    crate::eval::spec_grid_vals(old(self).cells()),
                    crate::eval::spec_grid_attrs(old(self).cells()),
                ),
                w == spec_patch_writes(st0, ups),
                affected@.len() == i,
                forall|x: int|
                    0 <= x < i ==> #[trigger] affected@[x] == (CellRef {
                        row: ups[x].row,
                        col: ups[x].col,
                    }),
                forall|x: int|
                    0 <= x < i ==> spec_update_ok(#[trigger] ups[x], old(self).rows,
                    old(self).cols),
                target == spec_patch_engine(
                    crate::engine::spec_fmapv(formula_engine.fmap()),
                    formula_engine.edges(),
                    ups.subrange(i as int, n as int),
                ),
                spec_state_matches(
                    self.cells(),
                    spec_patch_writes(st0, ups.subrange(0, i as int)),
                ),
            decreases n - i,
        {
            let upd = &patch.updates[i];
            let cell_ref = CellRef::new(upd.row, upd.col);
            let ghost key = crate::engine::spec_key(cell_ref);
            let ghost pre = spec_patch_writes(st0, ups.subrange(0, i as int));
            let ghost cm_pre = self.cells();
            affected.push(cell_ref);
            proof {
                assert(ups.subrange(i as int, n as int)[0] == ups[i as int]);
                assert(ups.subrange(i as int, n as int).drop_first() =~= ups.subrange(
                    i + 1,
                    n as int,
                ));
                assert(ups.subrange(0, i + 1).drop_last() =~= ups.subrange(0, i as int));
                assert(ups.subrange(0, i + 1).last() == ups[i as int]);
            }
            match &upd.formula {
                Some(formula) => {
                    if !(upd.row < self.rows && upd.col < self.cols) {
                        proof {
                            lemma_first_bad_at(ups, old(self).rows, old(self).cols, i as int);
                        }
                        return Err(GridError::OutOfBounds(cell_ref));
                    }
                    let parsed = match formula_engine.parse(formula.as_str()) {
                        Ok(f) => f,
                        Err(e) => {
                            proof {
                                lemma_first_bad_at(ups, old(self).rows, old(self).cols,
                                    i as int);
                            }
                            return Err(GridError::Formula(e));
                        },
                    };
                    let ghost nv = parsed.ast@;
                    let ghost fcell = Cell {
                        value: CellValue::Empty,
                        formula: Some(parsed.raw),
                        format: None,
                    };
                    let ghost fmv_pre = crate::engine::spec_fmapv(formula_engine.fmap());
                    let ghost edges_pre = formula_engine.edges();
                    match self.set_formula(cell_ref, &parsed) {
                        Ok(_) => {
                        },
                        Err(e) => {
                            proof {
                                assert(false);
                            }
                            return Err(e);
                        },
                    }
                    formula_engine.register_formula(cell_ref, parsed);
                    proof {
                        assert(formula_engine.edges() =~= spec_edges_after_formula(
                            edges_pre,
                            key,
                            nv,
                        )) by {
                            assert forall|e: (u64, u64)|
                                e.1 == key implies (crate::engine::spec_dep_keys(
                                formula_engine.fmap()[key],
                            ).contains(e.0) <==> crate::engine::spec_dep_key_set(nv).contains(
                                e.0,
                            )) by {
                                assert(formula_engine.fmap()[key].dependencies@
                                    == crate::formula::spec_node_deps(nv));
                            }
                        }
                        assert(crate::engine::spec_fmapv(formula_engine.fmap())
                            =~= fmv_pre.insert(key, nv));
                        crate::eval::lemma_put_vals(cm_pre, cell_ref, fcell, self.rows,
                            self.cols);
                        crate::eval::lemma_put_attrs(cm_pre, cell_ref, fcell, self.rows,
                            self.cols);
                        assert(crate::eval::spec_grid_vals(self.cells()) =~= pre.0.insert(
                            cell_ref,
                            crate::cell::ValueView::Empty,
                        ));
                        assert(crate::eval::spec_grid_attrs(self.cells()) =~= pre.1.insert(
                            cell_ref,
                            (Some(upd.formula->Some_0@), None),
                        ));
                        assert(spec_state_matches(
                            self.cells(),
                            spec_patch_writes(st0, ups.subrange(0, i + 1)),
                        ));
                    }
                },
                None => {
                    match &upd.value {
                        Some(value) => {
                            if !(upd.row < self.rows && upd.col < self.cols) {
                                proof {
                                    lemma_first_bad_at(ups, old(self).rows, old(self).cols,
                                        i as int);
                                }
                                return Err(GridError::OutOfBounds(cell_ref));
                            }
                            let ghost fmv_pre = crate::engine::spec_fmapv(
                                formula_engine.fmap(),
                            );
                            let ghost edges_pre = formula_engine.edges();
                            formula_engine.unregister_formula(cell_ref);
                            proof {
                                assert(formula_engine.edges() =~= spec_edges_after_literal(
                                    edges_pre,
                                    key,
                                ));
                                assert(crate::engine::spec_fmapv(formula_engine.fmap())
                                    =~= fmv_pre.remove(key));
                            }
                            let parsed_value = CellValue::parse(value.as_str());
                            let ghost gpv = parsed_value;
                            proof {
                                assert(gpv@ == spec_lit_view(value@));
                                crate::eval::lemma_set_value_vals(cm_pre, cell_ref, gpv,
                                    self.rows, self.cols);
                                crate::eval::lemma_set_value_attrs(cm_pre, cell_ref, gpv,
                                    self.rows, self.cols);
                            }
                            match self.set_value(cell_ref, parsed_value) {
                                Ok(_) => {
                                },
                                Err(e) => {
                                    proof {
                                        assert(false);
                                    }
                                    return Err(e);
                                },
                            }
                            proof {
                                // The write matches the fold's step: the
                                // tracked attributes decide the empty
                                // case exactly as the stored cell does.
                                let pv = spec_lit_view(value@);
                                if pv is Empty {
                                    match spec_cells_at(cm_pre, cell_ref) {
                                        Some(c) => {
                                            assert(pre.1.dom().contains(cell_ref));
                                            assert(pre.1[cell_ref].0
                                                == crate::grid::spec_opt_str_view(c.formula));
                                            assert(pre.1[cell_ref].1 == c.format);
                                        },
                                        None => {
                                            assert(!pre.1.dom().contains(cell_ref));
                                        },
                                    }
                                }
                                assert(crate::eval::spec_grid_vals(self.cells())
                                    =~= spec_write_step(pre, ups[i as int]).0);
                                assert(crate::eval::spec_grid_attrs(self.cells())
                                    =~= spec_write_step(pre, ups[i as int]).1);
                                assert(spec_state_matches(
                                    self.cells(),
                                    spec_patch_writes(st0, ups.subrange(0, i + 1)),
                                ));
                            }
                        },
                        None => {
                            proof {
                                assert(spec_state_matches(
                                    self.cells(),
                                    spec_patch_writes(st0, ups.subrange(0, i + 1)),
                                ));
                            }
                        },
                    }
                },
            }
            i += 1;
        }
        proof {
            assert((crate::engine::spec_fmapv(formula_engine.fmap()), formula_engine.edges())
                == target);
            assert(spec_state_matches(self.cells(), w));
        }
        // Recalculate from every touched cell, folding the results in.
        let ghost tk = spec_touched_keys(ups);
        let touched: usize = affected.len();
        proof {
            assert(tk.subrange(0, 0) =~= Seq::<u64>::empty());
        }
        let mut t: usize = 0;
        while t < touched
            invariant
                touched == n,
                n == patch.updates@.len(),
                ups == patch.updates@,
                0 <= t <= touched,
                self.wf(),
                formula_engine.wf(),
                self.rows == old(self).rows,
                self.cols == old(self).cols,
                self.widths() == old(self).widths(),
                self.heights() == old(self).heights(),
                self.spec_default_col_width() == old(self).spec_default_col_width(),
                self.spec_default_row_height() == old(self).spec_default_row_height(),
                st0 == (
                    crate::eval::spec_grid_vals(old(self).cells()),
                    crate::eval::spec_grid_attrs(old(self).cells()),
                ),
                w == spec_patch_writes(st0, ups),
                tk == spec_touched_keys(ups),
                (crate::engine::spec_fmapv(formula_engine.fmap()), formula_engine.edges())
                    == target,
                target == spec_patch_engine(
                    crate::engine::spec_fmapv(old(formula_engine).fmap()),
                    old(formula_engine).edges(),
                    patch.updates@,
                ),
                crate::eval::spec_grid_attrs(self.cells()) == w.1,
                spec_recalc_chain(target.1, target.0, w.0, old(self).rows, old(self).cols,
                    tk.subrange(0, t as int), crate::eval::spec_grid_vals(self.cells())),
                affected@.len() >= n,
                forall|x: int|
                    0 <= x < n ==> #[trigger] affected@[x] == (CellRef {
                        row: ups[x].row,
                        col: ups[x].col,
                    }),
                forall|x: int|
                    0 <= x < n ==> spec_update_ok(#[trigger] ups[x], old(self).rows,
                    old(self).cols),
                forall|x: int, y: int|
                    n <= x < affected@.len() && 0 <= y < x ==> #[trigger] affected@[y]
                        != #[trigger] affected@[x],
            decreases touched - t,
        {
            let changed = affected[t];
            let ghost gv_prev = crate::eval::spec_grid_vals(self.cells());
            let recalced = match formula_engine.recalculate(self, changed) {
                Ok(list) => list,
                Err(e) => {
                    proof {
                        assert(!crate::engine::spec_recalc_succeeds(
                            formula_engine.edges(),
                            crate::engine::spec_fmapv(formula_engine.fmap()),
                            crate::eval::spec_grid_vals(self.cells()),
                            old(self).rows,
                            old(self).cols,
                            crate::engine::spec_key(changed),
                        ));
                        assert(changed == affected@[t as int]);
                        assert(affected@[t as int] == (CellRef {
                            row: ups[t as int].row,
                            col: ups[t as int].col,
                        }));
                        assert(!crate::engine::spec_recalc_succeeds(
                            spec_patch_engine(
                                crate::engine::spec_fmapv(old(formula_engine).fmap()),
                                old(formula_engine).edges(),
                                patch.updates@,
                            ).1,
                            spec_patch_engine(
                                crate::engine::spec_fmapv(old(formula_engine).fmap()),
                                old(formula_engine).edges(),
                                patch.updates@,
                            ).0,
                            crate::eval::spec_grid_vals(self.cells()),
                            old(self).rows,
                            old(self).cols,
                            crate::engine::spec_key(
                                CellRef {
                                    row: patch.updates@[t as int].row,
                                    col: patch.updates@[t as int].col,
                                },
                            ),
                        ));
                        // The completed prefix stands committed.
                        assert(spec_recalc_chain(target.1, target.0, w.0, old(self).rows,
                            old(self).cols, tk.subrange(0, t as int),
                            crate::eval::spec_grid_vals(self.cells())));
                    }
                    return Err(GridError::Formula(e));
                },
            };
            proof {
                let skeys = recalced@.map_values(|c: CellRef| crate::engine::spec_key(c));
                assert(crate::engine::spec_replay(gv_prev, old(self).rows, old(self).cols,
                    target.0, skeys) == Some(crate::eval::spec_grid_vals(self.cells())));
                assert(changed == (CellRef { row: ups[t as int].row, col: ups[t as int].col }));
                assert(tk[t as int] == crate::engine::spec_key(changed));
                assert(crate::engine::spec_admissible_order(target.1, target.0, tk[t as int],
                    skeys)) by {
                    assert forall|k2: u64|
                        target.0.dom().contains(k2) && crate::depgraph::spec_reaches(
                            target.1,
                            tk[t as int],
                            k2,
                        ) implies skeys.contains(k2) by {
                        assert(formula_engine.fmap().dom().contains(k2));
                    }
                }
                assert(tk.subrange(0, t as int).push(tk[t as int]) =~= tk.subrange(0, t + 1));
                lemma_chain_snoc(target.1, target.0, w.0, old(self).rows, old(self).cols,
                    tk.subrange(0, t as int), gv_prev, tk[t as int], skeys,
                    crate::eval::spec_grid_vals(self.cells()));
                // Attributes and presence survive the committed pass.
                assert(crate::eval::spec_grid_attrs(self.cells()) =~= w.1);
            }
            let m: usize = recalced.len();
            let mut j: usize = 0;
            while j < m
                invariant
                    m == recalced@.len(),
                    0 <= j <= m,
                    n <= affected@.len(),
                    forall|x: int|
                        0 <= x < n ==> #[trigger] affected@[x] == (CellRef {
                            row: ups[x].row,
                            col: ups[x].col,
                        }),
                    ups == patch.updates@,
                    n == patch.updates@.len(),
                    forall|x: int, y: int|
                        n <= x < affected@.len() && 0 <= y < x ==> #[trigger] affected@[y]
                            != #[trigger] affected@[x],
                decreases m - j,
            {
                let c = recalced[j];
                if !ref_list_contains(&affected, c) {
                    let ghost before = affected@;
                    affected.push(c);
                    proof {
                        assert forall|x: int, y: int|
                            n <= x < affected@.len() && 0 <= y < x implies #[trigger] affected@[
                        y] != #[trigger] affected@[x] by {
                            if x < before.len() {
                                assert(affected@[x] == before[x] && affected@[y] == before[y]);
                            } else {
                                assert(affected@[x] == c);
                                assert(affected@[y] == before[y]);
                                assert(!before.contains(c));
                            }
                        }
                    }
                }
                j += 1;
            }
            t += 1;
        }
        proof {
            assert(tk.subrange(0, n as int) =~= tk);
        }
        Ok(affected)
    }
}

/// Whether a reference list holds a reference.
fn ref_list_contains(v: &Vec<CellRef>, x: CellRef) -> (r: bool)
    ensures
        r == v@.contains(x),
{
    let n: usize = v.len();
    for i in 0..n
        invariant
            n == v@.len(),
            forall|j: int| 0 <= j < i ==> v@[j] != x,
    {
        if v[i] == x {
            return true;
        }
    }
    false
}

impl SheetEngine {
    /// Well-formedness of the whole engine.
    pub open spec fn wf(&self) -> bool {
        self.grid.wf() && self.formula_engine.wf()
    }

    /// A fresh engine with the given grid bounds.
    pub fn new(rows: u32, cols: u32) -> (e: SheetEngine)
        ensures
            e.wf(),
            e.grid.rows == rows,
            e.grid.cols == cols,
            e.grid.cells() == Map::<u32, Seq<(u32, Cell)>>::empty(),
    {
        SheetEngine { grid: Grid::new(rows, cols), formula_engine: FormulaEngine::new() }
    }

    /// Set a cell from its edited text: a leading `=` makes it a formula,
    /// anything else is parsed as a literal value.  Returns the display
    /// records of every cell the edit changed, the edited cell first and
    /// the rest in recomputation order.  A user-input error (bad text, an
    /// unknown function, a bad arity) rolls the edit back entirely; a
    /// circular reference keeps the registration, per the design notes,
    /// but writes no computed value.
    #[verifier::rlimit(100)]
    #[verifier::spinoff_prover]
    pub fn set_cell(&mut self, row: u32, col: u32, value: &str) -> (r: Result<
        GridDiff,
        FormulaError,
    >)
        requires
            old(self).wf(),
        ensures
            final(self).wf(),
            final(self).grid.rows == old(self).grid.rows,
            final(self).grid.cols == old(self).grid.cols,
            final(self).grid.widths() == old(self).grid.widths(),
            final(self).grid.heights() == old(self).grid.heights(),
            !(row < old(self).grid.rows && col < old(self).grid.cols) ==> (r is Err
                && final(self).grid.cells() == old(self).grid.cells()
                && final(self).formula_engine == old(self).formula_engine),
            ((r matches Err(e) && e matches FormulaError::CircularReference)
                ==> crate::depgraph::spec_has_cycle(final(self).formula_engine.edges())),
            (r is Ok ==> !crate::depgraph::spec_has_cycle(final(self).formula_engine.edges())),
            // What a committed formula edit does to the engine (a
            // circular reference keeps the registration for a later fix).
            ((spec_is_formula_text(value@) && (r is Ok || (r matches Err(e)
                && e matches FormulaError::CircularReference))) ==> {
                let key = crate::engine::spec_key(CellRef { row, col });
                let nv = crate::formula::spec_parse_expr(
                    crate::formula::spec_formula_body(value@),
                )->Some_0;
                &&& final(self).formula_engine.fmap().dom().contains(key)
                &&& final(self).formula_engine.fmap()[key].ast@ == nv
                &&& final(self).formula_engine.edges() == spec_edges_after_formula(
                    old(self).formula_engine.edges(),
                    key,
                    nv,
                )
                &&& crate::engine::spec_fmapv(final(self).formula_engine.fmap())
                    == crate::engine::spec_fmapv(old(self).formula_engine.fmap()).insert(key, nv)
            }),
            // What a committed literal edit does to the engine.
            ((!spec_is_formula_text(value@) && (r is Ok || (r matches Err(e)
                && e matches FormulaError::CircularReference))) ==> {
                let key = crate::engine::spec_key(CellRef { row, col });
                &&& !final(self).formula_engine.fmap().dom().contains(key)
                &&& final(self).formula_engine.edges() == spec_edges_after_literal(
                    old(self).formula_engine.edges(),
                    key,
                )
                &&& crate::engine::spec_fmapv(final(self).formula_engine.fmap())
                    == crate::engine::spec_fmapv(old(self).formula_engine.fmap()).remove(key)
            }),
            // Success is owed: in bounds, the text parses (or is a
            // literal), and the recalculation after the write runs
            // through on every admissible order.
            ((row < old(self).grid.rows && col < old(self).grid.cols && spec_is_formula_text(
                value@,
            ) && crate::formula::spec_parse_expr(crate::formula::spec_formula_body(value@))
                is Some && crate::engine::spec_recalc_succeeds(
                spec_edges_after_formula(
                    old(self).formula_engine.edges(),
                    crate::engine::spec_key(CellRef { row, col }),
                    crate::formula::spec_parse_expr(
                        crate::formula::spec_formula_body(value@),
                    )->Some_0,
                ),
                crate::engine::spec_fmapv(old(self).formula_engine.fmap()).insert(
                    crate::engine::spec_key(CellRef { row, col }),
                    crate::formula::spec_parse_expr(
                        crate::formula::spec_formula_body(value@),
                    )->Some_0,
                ),
                crate::eval::spec_grid_vals(old(self).grid.cells()).insert(
                    CellRef { row, col },
                    crate::cell::ValueView::Empty,
                ),
                old(self).grid.rows,
                old(self).grid.cols,
                crate::engine::spec_key(CellRef { row, col }),
            )) ==> r is Ok),
            ((row < old(self).grid.rows && col < old(self).grid.cols && !spec_is_formula_text(
                value@,
            ) && crate::engine::spec_recalc_succeeds(
                spec_edges_after_literal(
                    old(self).formula_engine.edges(),
                    crate::engine::spec_key(CellRef { row, col }),
                ),
                crate::engine::spec_fmapv(old(self).formula_engine.fmap()).remove(
                    crate::engine::spec_key(CellRef { row, col }),
                ),
                crate::eval::spec_vals_set_value(
                    old(self).grid.cells(),
                    CellRef { row, col },
                    spec_lit_view(value@),
                ),
                old(self).grid.rows,
                old(self).grid.cols,
                crate::engine::spec_key(CellRef { row, col }),
            )) ==> r is Ok),
            // A parse error is owed on formula text that does not parse.
            ((row < old(self).grid.rows && col < old(self).grid.cols && spec_is_formula_text(
                value@,
            ) && crate::formula::spec_parse_expr(crate::formula::spec_formula_body(value@))
                is None) ==> (r matches Err(e) && e matches FormulaError::Parse(_))),
            // Any error but a circular reference rolls the edit back:
            // every cell and the engine's formulas and edges read as
            // before.
            ((r matches Err(e) && !(e matches FormulaError::CircularReference)) ==> {
                &&& forall|rf: CellRef|
                    #[trigger] spec_cells_at(final(self).grid.cells(), rf) == spec_cells_at(
                        old(self).grid.cells(),
                        rf,
                    )
                &&& final(self).formula_engine.edges() == old(self).formula_engine.edges()
                &&& forall|k: u64|
                    #[trigger] final(self).formula_engine.fmap().dom().contains(k)
                        <==> old(self).formula_engine.fmap().dom().contains(k)
                &&& forall|k: u64|
                    old(self).formula_engine.fmap().dom().contains(k) ==> ((
                    #[trigger] final(self).formula_engine.fmap()[k]).raw == old(
                        self,
                    ).formula_engine.fmap()[k].raw && final(self).formula_engine.fmap()[k].ast@
                        == old(self).formula_engine.fmap()[k].ast@
                        && final(self).formula_engine.fmap()[k].dependencies@ == old(
                        self,
                    ).formula_engine.fmap()[k].dependencies@)
            }),
            // A circular reference writes no computed value: the values
            // are exactly those after the bare edit.
            ((r matches Err(e) && e matches FormulaError::CircularReference
                && spec_is_formula_text(value@)) ==> crate::eval::spec_grid_vals(
                final(self).grid.cells(),
            ) == crate::eval::spec_grid_vals(old(self).grid.cells()).insert(
                CellRef { row, col },
                crate::cell::ValueView::Empty,
            )),
            ((r matches Err(e) && e matches FormulaError::CircularReference
                && !spec_is_formula_text(value@)) ==> crate::eval::spec_grid_vals(
                final(self).grid.cells(),
            ) == crate::eval::spec_vals_set_value(
                old(self).grid.cells(),
                CellRef { row, col },
                spec_lit_view(value@),
            )),
            // On success the final cells are the replay of the edit over
            // some admissible recomputation order.
            ((r is Ok && spec_is_formula_text(value@)) ==> (exists|keys: Seq<u64>|
                crate::engine::spec_admissible_order(
                    final(self).formula_engine.edges(),
                    crate::engine::spec_fmapv(final(self).formula_engine.fmap()),
                    crate::engine::spec_key(CellRef { row, col }),
                    keys,
                ) && #[trigger] crate::engine::spec_replay(
                    crate::eval::spec_grid_vals(old(self).grid.cells()).insert(
                        CellRef { row, col },
                        crate::cell::ValueView::Empty,
                    ),
                    old(self).grid.rows,
                    old(self).grid.cols,
                    crate::engine::spec_fmapv(final(self).formula_engine.fmap()),
                    keys,
                ) == Some(crate::eval::spec_grid_vals(final(self).grid.cells())))),
            ((r is Ok && !spec_is_formula_text(value@)) ==> (exists|keys: Seq<u64>|
                crate::engine::spec_admissible_order(
                    final(self).formula_engine.edges(),
                    crate::engine::spec_fmapv(final(self).formula_engine.fmap()),
                    crate::engine::spec_key(CellRef { row, col }),
                    keys,
                ) && #[trigger] crate::engine::spec_replay(
                    crate::eval::spec_vals_set_value(
                        old(self).grid.cells(),
                        CellRef { row, col },
                        spec_lit_view(value@),
                    ),
                    old(self).grid.rows,
                    old(self).grid.cols,
                    crate::engine::spec_fmapv(final(self).formula_engine.fmap()),
                    keys,
                ) == Some(crate::eval::spec_grid_vals(final(self).grid.cells())))),
            // The change report: every record shows the final cell at its
            // own coordinates, and the edited cell comes first when it is
            // stored.
            (r matches Ok(diff) ==> forall|i: int|
                0 <= i < diff.cells@.len() ==> {
                    let d = (#[trigger] diff.cells@[i])@;
                    spec_cells_at(final(self).grid.cells(), CellRef { row: d.row, col: d.col })
                        is Some && d == crate::grid::spec_cell_data(
                        d.row,
                        d.col,
                        spec_cells_at(
                            final(self).grid.cells(),
                            CellRef { row: d.row, col: d.col },
                        )->Some_0,
                    )
                }),
            (r matches Ok(diff) ==> (spec_cells_at(
                final(self).grid.cells(),
                CellRef { row, col },
            ) is Some ==> diff.cells@.len() >= 1 && diff.cells@[0]@
                == crate::grid::spec_cell_data(
                row,
                col,
                spec_cells_at(final(self).grid.cells(), CellRef { row, col })->Some_0,
            ))),
    {
        let cell_ref = CellRef::new(row, col);
        if !(row < self.grid.rows && col < self.grid.cols) {
            return Err(FormulaError::Grid(String::from_str("cell out of bounds")));
        }
        let starts_eq: bool = value.unicode_len() >= 1 && value.get_char(0) == '=';
        // Snapshots for rolling a failed edit back.
        let old_cell: Option<Cell> = match self.grid.get_cell(cell_ref) {
            Some(c) => Some(c.duplicate()),
            None => None,
        };
        let old_formula = self.formula_engine.formula_duplicate(cell_ref);
        let ghost key = crate::engine::spec_key(cell_ref);
        let ghost cells0 = self.grid.cells();
        let ghost edges0 = self.formula_engine.edges();
        let ghost fmap0 = self.formula_engine.fmap();
        if starts_eq {
            let formula = match self.formula_engine.parse(value) {
                Ok(f) => f,
                Err(e) => {
                    return Err(e);
                },
            };
            let ghost nv = formula.ast@;
            let ghost fcell = Cell {
                value: CellValue::Empty,
                formula: Some(formula.raw),
                format: None,
            };
            match self.grid.set_formula(cell_ref, &formula) {
                Ok(_) => {
                },
                Err(_) => {
                    proof {
                        assert(false);
                    }
                    return Err(FormulaError::Grid(String::from_str("cell out of bounds")));
                },
            }
            self.formula_engine.register_formula(cell_ref, formula);
            proof {
                assert(self.formula_engine.edges() =~= spec_edges_after_formula(
                    edges0,
                    key,
                    nv,
                )) by {
                    assert forall|e: (u64, u64)|
                        e.1 == key implies (crate::engine::spec_dep_keys(
                        self.formula_engine.fmap()[key],
                    ).contains(e.0) <==> crate::engine::spec_dep_key_set(nv).contains(e.0)) by {
                        assert(self.formula_engine.fmap()[key].dependencies@
                            == crate::formula::spec_node_deps(nv));
                    }
                }
                assert(crate::engine::spec_fmapv(self.formula_engine.fmap())
                    =~= crate::engine::spec_fmapv(fmap0).insert(key, nv));
                crate::eval::lemma_put_vals(cells0, cell_ref, fcell, self.grid.rows,
                    self.grid.cols);
                assert forall|rf: CellRef|
                    rf != cell_ref implies #[trigger] spec_cells_at(self.grid.cells(), rf)
                        == spec_cells_at(cells0, rf) by {
                    crate::grid::lemma_cells_put_at(cells0, cell_ref, fcell, rf,
                        self.grid.rows, self.grid.cols);
                }
            }
        } else {
            let cell_value = CellValue::parse(value);
            let ghost gcell_value = cell_value;
            proof {
                assert(cell_value@ == spec_lit_view(value@));
                crate::eval::lemma_set_value_vals(cells0, cell_ref, cell_value, self.grid.rows,
                    self.grid.cols);
            }
            self.formula_engine.unregister_formula(cell_ref);
            proof {
                assert(self.formula_engine.edges() =~= spec_edges_after_literal(edges0, key));
                assert(crate::engine::spec_fmapv(self.formula_engine.fmap())
                    =~= crate::engine::spec_fmapv(fmap0).remove(key));
            }
            match self.grid.set_value(cell_ref, cell_value) {
                Ok(_) => {
                },
                Err(_) => {
                    proof {
                        assert(false);
                    }
                    return Err(FormulaError::Grid(String::from_str("cell out of bounds")));
                },
            }
            proof {
                assert forall|rf: CellRef|
                    rf != cell_ref implies #[trigger] spec_cells_at(self.grid.cells(), rf)
                        == spec_cells_at(cells0, rf) by {
                    crate::eval::lemma_set_value_at(cells0, cell_ref, gcell_value, rf,
                        self.grid.rows, self.grid.cols);
                }
            }
        }
        let ghost cw = self.grid.cells();
        proof {
            assert(forall|rf: CellRef|
                rf != cell_ref ==> #[trigger] spec_cells_at(cw, rf) == spec_cells_at(
                    cells0,
                    rf,
                ));
        }
        let ghost vals1 = crate::eval::spec_grid_vals(cw);
        proof {
            if starts_eq {
                assert(vals1 =~= crate::eval::spec_grid_vals(cells0).insert(
                    cell_ref,
                    crate::cell::ValueView::Empty,
                ));
            } else {
                assert(vals1 =~= crate::eval::spec_vals_set_value(
                    cells0,
                    cell_ref,
                    spec_lit_view(value@),
                ));
            }
        }
        let recalced = match self.formula_engine.recalculate(&mut self.grid, cell_ref) {
            Ok(list) => list,
            Err(e) => {
                let circular = match &e {
                    FormulaError::CircularReference => true,
                    _ => false,
                };
                if circular {
                    return Err(e);
                }
                // Roll the edit back: the stored cell and the engine's
                // formula for it return to what they were.
                match old_cell {
                    Some(c) => {
                        let ghost oc = c;
                        let res = self.grid.insert_cell(cell_ref, c);
                        proof {
                            assert(res is Ok);
                            assert forall|rf: CellRef|
                                #[trigger] spec_cells_at(self.grid.cells(), rf)
                                    == spec_cells_at(cells0, rf) by {
                                crate::grid::lemma_cells_put_at(cw, cell_ref, oc, rf,
                                    self.grid.rows, self.grid.cols);
                                if rf != cell_ref {
                                    assert(spec_cells_at(cw, rf) == spec_cells_at(cells0, rf));
                                }
                            }
                        }
                    },
                    None => {
                        self.grid.remove_cell(cell_ref);
                        proof {
                            assert forall|rf: CellRef|
                                #[trigger] spec_cells_at(self.grid.cells(), rf)
                                    == spec_cells_at(cells0, rf) by {
                                crate::grid::lemma_cells_remove_at(cw, cell_ref, rf,
                                    self.grid.rows, self.grid.cols);
                                if rf != cell_ref {
                                    assert(spec_cells_at(cw, rf) == spec_cells_at(cells0, rf));
                                }
                            }
                        }
                    },
                }
                match old_formula {
                    Some(f) => {
                        proof {
                            assert(f.dependencies@ == crate::formula::spec_node_deps(f.ast@));
                        }
                        let ghost fdup = f;
                        self.formula_engine.register_formula(cell_ref, f);
                        proof {
                            assert(self.formula_engine.edges() =~= edges0) by {
                                assert forall|e2: (u64, u64)|
                                    e2.1 == key implies (crate::engine::spec_dep_keys(
                                    fdup,
                                ).contains(e2.0) <==> edges0.contains(e2)) by {
                                    assert(fdup.dependencies@ == fmap0[key].dependencies@);
                                    assert(crate::engine::spec_dep_keys(fdup)
                                        =~= crate::engine::spec_dep_keys(fmap0[key]));
                                }
                            }
                            assert(crate::engine::spec_fmapv(self.formula_engine.fmap())
                                =~= crate::engine::spec_fmapv(fmap0));
                        }
                    },
                    None => {
                        self.formula_engine.unregister_formula(cell_ref);
                        proof {
                            assert(self.formula_engine.edges() =~= edges0) by {
                                assert forall|e2: (u64, u64)|
                                    edges0.contains(e2) implies e2.1 != key by {
                                    if e2.1 == key {
                                        assert(fmap0.dom().contains(key));
                                    }
                                }
                            }
                            assert(crate::engine::spec_fmapv(self.formula_engine.fmap())
                                =~= crate::engine::spec_fmapv(fmap0));
                        }
                    },
                }
                return Err(e);
            },
        };
        let mut affected: Vec<CellRef> = Vec::new();
        affected.push(cell_ref);
        let m: usize = recalced.len();
        let mut j: usize = 0;
        while j < m
            invariant
                m == recalced@.len(),
                0 <= j <= m,
                self.grid.wf(),
                affected@.len() >= 1,
                affected@[0] == cell_ref,
            decreases m - j,
        {
            let c = recalced[j];
            if !ref_list_contains(&affected, c) {
                affected.push(c);
            }
            j += 1;
        }
        let diff = GridDiff::from_cells(&self.grid, &affected);
        proof {
            crate::grid::lemma_diff_cells_records(self.grid.cells(), affected@);
            let skeys = recalced@.map_values(|c: CellRef| crate::engine::spec_key(c));
            assert(crate::engine::spec_replay(vals1, old(self).grid.rows, old(self).grid.cols,
                crate::engine::spec_fmapv(self.formula_engine.fmap()), skeys) == Some(
                crate::eval::spec_grid_vals(self.grid.cells()),
            ));
            assert(crate::engine::spec_admissible_order(
                self.formula_engine.edges(),
                crate::engine::spec_fmapv(self.formula_engine.fmap()),
                key,
                skeys,
            )) by {
                assert forall|k2: u64|
                    crate::engine::spec_fmapv(self.formula_engine.fmap()).dom().contains(k2)
                        && crate::depgraph::spec_reaches(self.formula_engine.edges(), key, k2)
                        implies skeys.contains(k2) by {
                    assert(self.formula_engine.fmap().dom().contains(k2));
                }
            }
            if spec_cells_at(self.grid.cells(), cell_ref) is Some {
                assert(affected@[0] == cell_ref);
                assert(crate::grid::spec_diff_cells(self.grid.cells(), affected@).len() >= 1);
                assert(diff.cells@.map_values(|d: CellData| d@).len() == diff.cells@.len());
                assert(diff.cells@.len() >= 1);
                assert(diff.cells@.map_values(|d: CellData| d@)[0]
                    == crate::grid::spec_cell_data(
                    row,
                    col,
                    spec_cells_at(self.grid.cells(), cell_ref)->Some_0,
                ));
                assert(diff.cells@[0]@ == diff.cells@.map_values(|d: CellData| d@)[0]);
            }
            assert forall|i: int|
                0 <= i < diff.cells@.len() implies {
                let d = (#[trigger] diff.cells@[i])@;
                spec_cells_at(self.grid.cells(), CellRef { row: d.row, col: d.col }) is Some
                    && d == crate::grid::spec_cell_data(
                    d.row,
                    d.col,
                    spec_cells_at(self.grid.cells(), CellRef { row: d.row, col: d.col })
                        ->Some_0,
                )
            } by {
                assert(diff.cells@[i]@ == diff.cells@.map_values(|d: CellData| d@)[i]);
            }
        }
        Ok(diff)
    }

    /// The cell stored at (row, col), if any.
    pub fn get_cell(&self, row: u32, col: u32) -> (r: Option<&Cell>)
        ensures
            (r matches Some(c) ==> crate::grid::spec_cells_at(
                self.grid.cells(),
                CellRef { row, col },
            ) == Some(*c)),
            (r is None ==> crate::grid::spec_cells_at(
                self.grid.cells(),
                CellRef { row, col },
            ) is None),
    {
        self.grid.get_cell(CellRef::new(row, col))
    }

    /// The stored cells of a rectangle, as display records.
    pub fn get_range(&self, start_row: u32, start_col: u32, end_row: u32, end_col: u32) -> (r:
        Vec<CellData>)
        requires
            self.wf(),
        ensures
            r@.map_values(|d: CellData| d@) == crate::grid::spec_range_data(
                self.grid.cells(),
                start_col as int,
                (if end_col as int <= self.grid.cols as int - 1 {
                    end_col as int
                } else {
                    self.grid.cols as int - 1
                }),
                start_row,
                end_row,
            ),
    {
        self.grid.get_range(start_row, start_col, end_row, end_col)
    }

    /// Apply a batch of updates and return the change report.
    #[verifier::rlimit(100)]
    #[verifier::spinoff_prover]
    pub fn apply_patch(&mut self, patch: &GridPatch) -> (r: Result<GridDiff, GridError>)
        requires
            old(self).wf(),
        ensures
            final(self).wf(),
            final(self).grid.rows == old(self).grid.rows,
            final(self).grid.cols == old(self).grid.cols,
            // On success every update was applicable and the engine
            // holds exactly the folded registrations.
            (r is Ok ==> {
                &&& forall|i: int|
                    0 <= i < patch.updates@.len() ==> spec_update_ok(
                        #[trigger] patch.updates@[i],
                        old(self).grid.rows,
                        old(self).grid.cols,
                    )
                &&& (crate::engine::spec_fmapv(final(self).formula_engine.fmap()),
                    final(self).formula_engine.edges()) == spec_patch_engine(
                    crate::engine::spec_fmapv(old(self).formula_engine.fmap()),
                    old(self).formula_engine.edges(),
                    patch.updates@,
                )
            }),
            // On success the cells hold the writes of every update in
            // list order, then the committed results of a chain of
            // recalculations, one per touched cell in order.
            (r is Ok ==> {
                let w = spec_patch_writes(
                    (
                        crate::eval::spec_grid_vals(old(self).grid.cells()),
                        crate::eval::spec_grid_attrs(old(self).grid.cells()),
                    ),
                    patch.updates@,
                );
                &&& crate::eval::spec_grid_attrs(final(self).grid.cells()) == w.1
                &&& spec_recalc_chain(
                    spec_patch_engine(
                        crate::engine::spec_fmapv(old(self).formula_engine.fmap()),
                        old(self).formula_engine.edges(),
                        patch.updates@,
                    ).1,
                    spec_patch_engine(
                        crate::engine::spec_fmapv(old(self).formula_engine.fmap()),
                        old(self).formula_engine.edges(),
                        patch.updates@,
                    ).0,
                    w.0,
                    old(self).grid.rows,
                    old(self).grid.cols,
                    spec_touched_keys(patch.updates@),
                    crate::eval::spec_grid_vals(final(self).grid.cells()),
                )
            }),
            // A formula that does not parse propagates its parse error
            // and leaves its own cell unwritten, the earlier updates
            // applied and nothing recomputed.
            ({
                let fb = spec_first_bad(
                    patch.updates@,
                    old(self).grid.rows,
                    old(self).grid.cols,
                ) as int;
                (fb < patch.updates@.len() && patch.updates@[fb].row < old(self).grid.rows
                    && patch.updates@[fb].col < old(self).grid.cols && patch.updates@[fb].formula
                    is Some && crate::formula::spec_parse_expr(
                    crate::formula::spec_formula_body(patch.updates@[fb].formula->Some_0@),
                ) is None) ==> (r matches Err(ge) && ge matches GridError::Formula(fe)
                    && fe matches crate::formula::FormulaError::Parse(_) && spec_state_matches(
                    final(self).grid.cells(),
                    spec_patch_writes(
                        (
                            crate::eval::spec_grid_vals(old(self).grid.cells()),
                            crate::eval::spec_grid_attrs(old(self).grid.cells()),
                        ),
                        patch.updates@.subrange(0, fb),
                    ),
                ))
            }),
            // An out-of-bounds update is rejected with its reference,
            // the same way.
            ({
                let fb = spec_first_bad(
                    patch.updates@,
                    old(self).grid.rows,
                    old(self).grid.cols,
                ) as int;
                (fb < patch.updates@.len() && (patch.updates@[fb].formula is Some
                    || patch.updates@[fb].value is Some) && !(patch.updates@[fb].row < old(
                    self,
                ).grid.rows && patch.updates@[fb].col < old(self).grid.cols)) ==> (r matches Err(
                    ge,
                ) && ge matches GridError::OutOfBounds(b) && b == (CellRef {
                    row: patch.updates@[fb].row,
                    col: patch.updates@[fb].col,
                }) && spec_state_matches(
                    final(self).grid.cells(),
                    spec_patch_writes(
                        (
                            crate::eval::spec_grid_vals(old(self).grid.cells()),
                            crate::eval::spec_grid_attrs(old(self).grid.cells()),
                        ),
                        patch.updates@.subrange(0, fb),
                    ),
                ))
            }),
            // A failed recalculation leaves all writes applied and the
            // completed recalculations committed: the attributes are the
            // written ones and the values are a chain over some prefix
            // of the touched cells.
            ((r is Err && (forall|i: int|
                0 <= i < patch.updates@.len() ==> spec_update_ok(
                    #[trigger] patch.updates@[i],
                    old(self).grid.rows,
                    old(self).grid.cols,
                ))) ==> {
                let w = spec_patch_writes(
                    (
                        crate::eval::spec_grid_vals(old(self).grid.cells()),
                        crate::eval::spec_grid_attrs(old(self).grid.cells()),
                    ),
                    patch.updates@,
                );
                &&& crate::eval::spec_grid_attrs(final(self).grid.cells()) == w.1
                &&& exists|t: int|
                    0 <= t <= patch.updates@.len() && #[trigger] spec_recalc_chain(
                        spec_patch_engine(
                            crate::engine::spec_fmapv(old(self).formula_engine.fmap()),
                            old(self).formula_engine.edges(),
                            patch.updates@,
                        ).1,
                        spec_patch_engine(
                            crate::engine::spec_fmapv(old(self).formula_engine.fmap()),
                            old(self).formula_engine.edges(),
                            patch.updates@,
                        ).0,
                        w.0,
                        old(self).grid.rows,
                        old(self).grid.cols,
                        spec_touched_keys(patch.updates@).subrange(0, t),
                        crate::eval::spec_grid_vals(final(self).grid.cells()),
                    )
            }),
            // Success is owed when every update is applicable and every
            // recalculation of a touched cell runs through from any
            // value state.
            ((forall|i: int|
                0 <= i < patch.updates@.len() ==> spec_update_ok(
                    #[trigger] patch.updates@[i],
                    old(self).grid.rows,
                    old(self).grid.cols,
                )) && (forall|vals: crate::eval::ValsView, i: int|
                0 <= i < patch.updates@.len() ==> #[trigger] crate::engine::spec_recalc_succeeds(
                    spec_patch_engine(
                        crate::engine::spec_fmapv(old(self).formula_engine.fmap()),
                        old(self).formula_engine.edges(),
                        patch.updates@,
                    ).1,
                    spec_patch_engine(
                        crate::engine::spec_fmapv(old(self).formula_engine.fmap()),
                        old(self).formula_engine.edges(),
                        patch.updates@,
                    ).0,
                    vals,
                    old(self).grid.rows,
                    old(self).grid.cols,
                    crate::engine::spec_key(
                        CellRef { row: patch.updates@[i].row, col: patch.updates@[i].col },
                    ),
                )) ==> r is Ok),
            // Every record of the report shows the final cell at its own
            // coordinates.
            (r matches Ok(diff) ==> forall|i: int|
                0 <= i < diff.cells@.len() ==> {
                    let d = (#[trigger] diff.cells@[i])@;
                    spec_cells_at(final(self).grid.cells(), CellRef { row: d.row, col: d.col })
                        is Some && d == crate::grid::spec_cell_data(
                        d.row,
                        d.col,
                        spec_cells_at(
                            final(self).grid.cells(),
                            CellRef { row: d.row, col: d.col },
                        )->Some_0,
                    )
                }),
    {
        let affected = match self.grid.apply_patch(patch, &mut self.formula_engine) {
            Ok(list) => list,
            Err(e) => {
                return Err(e);
            },
        };
        let diff = GridDiff::from_cells(&self.grid, &affected);
        proof {
            crate::grid::lemma_diff_cells_records(self.grid.cells(), affected@);
            assert forall|i: int|
                0 <= i < diff.cells@.len() implies {
                let d = (#[trigger] diff.cells@[i])@;
                spec_cells_at(self.grid.cells(), CellRef { row: d.row, col: d.col }) is Some
                    && d == crate::grid::spec_cell_data(
                    d.row,
                    d.col,
                    spec_cells_at(self.grid.cells(), CellRef { row: d.row, col: d.col })
                        ->Some_0,
                )
            } by {
                assert(diff.cells@[i]@ == diff.cells@.map_values(|d: CellData| d@)[i]);
            }
        }
        Ok(diff)
    }

    /// Merge a format into every cell of a rectangle.
    pub fn apply_format(
        &mut self,
        start_row: u32,
        start_col: u32,
        end_row: u32,
        end_col: u32,
        format: CellFormat,
    ) -> (r: Result<(), GridError>)
        requires
            old(self).wf(),
        ensures
            final(self).wf(),
            r is Ok,
            final(self).formula_engine == old(self).formula_engine,
            final(self).grid.rows == old(self).grid.rows,
            final(self).grid.cols == old(self).grid.cols,
            final(self).grid.cells() == crate::grid::spec_cells_format_rect(
                old(self).grid.cells(),
                start_row as int,
                start_col as int,
                (if end_row as int <= old(self).grid.rows as int - 1 {
                    end_row as int
                } else {
                    old(self).grid.rows as int - 1
                }),
                (if end_col as int <= old(self).grid.cols as int - 1 {
                    end_col as int
                } else {
                    old(self).grid.cols as int - 1
                }),
                format,
            ),
    {
        self.grid.apply_format_to_range(start_row, start_col, end_row, end_col, format)
    }

    /// The width of a column in pixels.
    pub fn get_col_width(&self, col: u32) -> (w: u32)
        ensures
            w == (if self.grid.widths().dom().contains(col) {
                self.grid.widths()[col]
            } else {
                self.grid.spec_default_col_width()
            }),
    {
        self.grid.get_col_width(col)
    }

    /// Set the width of a column in pixels.
    pub fn set_col_width(&mut self, col: u32, width: u32)
        ensures
            final(self).grid.widths() == (if width == old(self).grid.spec_default_col_width() {
                old(self).grid.widths().remove(col)
            } else {
                old(self).grid.widths().insert(col, width)
            }),
            final(self).grid.cells() == old(self).grid.cells(),
            final(self).grid.wf() == old(self).grid.wf(),
            final(self).formula_engine == old(self).formula_engine,
    {
        self.grid.set_col_width(col, width);
    }

    /// The height of a row in pixels.
    pub fn get_row_height(&self, row: u32) -> (h: u32)
        ensures
            h == (if self.grid.heights().dom().contains(row) {
                self.grid.heights()[row]
            } else {
                self.grid.spec_default_row_height()
            }),
    {
        self.grid.get_row_height(row)
    }

    /// Set the height of a row in pixels.
    pub fn set_row_height(&mut self, row: u32, height: u32)
        ensures
            final(self).grid.heights() == (if height == old(self).grid.spec_default_row_height() {
                old(self).grid.heights().remove(row)
            } else {
                old(self).grid.heights().insert(row, height)
            }),
            final(self).grid.cells() == old(self).grid.cells(),
            final(self).grid.wf() == old(self).grid.wf(),
            final(self).formula_engine == old(self).formula_engine,
    {
        self.grid.set_row_height(row, height);
    }
}

} // verus!
