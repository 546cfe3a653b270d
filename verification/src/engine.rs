//! The formula engine: the parsed formulas, the dependency graph over
//! them, and incremental recalculation in topological order.

use vstd::prelude::*;
use vstd::string::StringExecFns;
use std::collections::HashMap;
use crate::cell::{Cell, CellRef, CellValue, ValueView};
use crate::depgraph::{
    dg_nodes, dg_edges, dg_new, dg_add_node, dg_add_edge, dg_remove_edge, dg_incoming,
    dg_outgoing, dg_node_list, dg_topo, spec_has_cycle, spec_is_path, spec_reaches,
    lemma_reaches_self, lemma_reaches_step,
};
use crate::eval::{evaluate, spec_eval, spec_err_kind, EvalErr, spec_grid_vals, ValsView};
use crate::formula::{
    Formula, FormulaNode, FormulaError, parse_formula, spec_parse_expr, spec_formula_body,
    spec_node_deps,
};
use crate::grid::{Grid, ColumnsView, spec_cells_at, spec_cells_put};

verus! {

broadcast use vstd::std_specs::hash::group_hash_axioms;

/// The packed key of a cell reference: the row in the upper half, the
/// column in the lower.
pub open spec fn spec_key(r: CellRef) -> u64 {
    (r.row as int * 0x1_0000_0000 + r.col as int) as u64
}

/// The reference a packed key denotes.
pub open spec fn spec_key_ref(k: u64) -> CellRef {
    CellRef { row: (k as int / 0x1_0000_0000) as u32, col: (k as int % 0x1_0000_0000) as u32 }
}

/// Packing is inverted exactly by unpacking.
pub proof fn lemma_key_roundtrip(r: CellRef)
    ensures
        spec_key_ref(spec_key(r)) == r,
{
    let v = r.row as int * 0x1_0000_0000 + r.col as int;
    assert(0 <= v < 0x1_0000_0000_0000_0000) by (nonlinear_arith)
        requires
            v == r.row as int * 0x1_0000_0000 + r.col as int,
            0 <= (r.row as int),
            (r.row as int) < 0x1_0000_0000,
            0 <= (r.col as int),
            (r.col as int) < 0x1_0000_0000,
        ;
    assert(v / 0x1_0000_0000 == r.row as int && v % 0x1_0000_0000 == r.col as int)
        by (nonlinear_arith)
        requires
            v == r.row as int * 0x1_0000_0000 + r.col as int,
            0 <= (r.col as int),
            (r.col as int) < 0x1_0000_0000,
            0 <= (r.row as int),
    ;
}

/// The packed key of a reference.
pub fn cell_key(r: CellRef) -> (k: u64)
    ensures
        k == spec_key(r),
        spec_key_ref(k) == r,
{
    proof {
        assert((r.row as int * 0x1_0000_0000 + r.col as int) < 0x1_0000_0000_0000_0000)
            by (nonlinear_arith)
            requires
            0 <= (r.row as int),
            (r.row as int) < 0x1_0000_0000,
            0 <= (r.col as int),
            (r.col as int) < 0x1_0000_0000,
        ;
        assert(r.row as int * 0x1_0000_0000 >= 0) by (nonlinear_arith)
            requires r.row as int >= 0;
        lemma_key_roundtrip(r);
    }
    (r.row as u64) * 0x1_0000_0000u64 + (r.col as u64)
}

/// The reference a packed key denotes.
pub fn key_cell(k: u64) -> (r: CellRef)
    ensures
        r == spec_key_ref(k),
{
    CellRef { row: (k / 0x1_0000_0000u64) as u32, col: (k % 0x1_0000_0000u64) as u32 }
}

/// The set of packed keys of a formula's dependencies.
pub open spec fn spec_dep_keys(f: Formula) -> Set<u64> {
    Set::new(
        |d: u64|
            exists|i: int|
                0 <= i < f.dependencies@.len() && spec_key(#[trigger] f.dependencies@[i]) == d,
    )
}

/// The formula evaluation engine: parsed formulas by cell key, and the
/// dependency graph over them.
pub struct FormulaEngine {
    /// Dependency graph; an edge `u -> v` means "v's formula reads u".
    pub dep_graph: petgraph::graphmap::DiGraphMap<u64, ()>,
    /// Parsed formulas by packed cell key.
    pub formulas: HashMap<u64, Formula>,
}

impl FormulaEngine {
    /// The formulas, by packed cell key.
    pub open spec fn fmap(&self) -> Map<u64, Formula> {
        self.formulas@
    }

    /// The edge set of the dependency graph.
    pub open spec fn edges(&self) -> Set<(u64, u64)> {
        dg_edges(self.dep_graph)
    }

    /// The node set of the dependency graph.
    pub open spec fn nodes(&self) -> Set<u64> {
        dg_nodes(self.dep_graph)
    }

    /// Well-formedness: the incoming edges of each cell are exactly the
    /// dependency keys of its formula (and cells without formulas have
    /// none); every formula cell is a graph node; each stored dependency
    /// list is the dependency list of its AST.
    pub open spec fn wf(&self) -> bool {
        &&& forall|e: (u64, u64)|
            #[trigger] self.edges().contains(e) <==> (self.fmap().dom().contains(e.1)
                && spec_dep_keys(self.fmap()[e.1]).contains(e.0))
        &&& forall|c: u64| #[trigger] self.fmap().dom().contains(c) ==> self.nodes().contains(c)
        &&& forall|c: u64|
            #[trigger] self.fmap().dom().contains(c)
                ==> self.fmap()[c].dependencies@ == spec_node_deps(self.fmap()[c].ast@)
        &&& forall|e: (u64, u64)|
            #[trigger] self.edges().contains(e) ==> self.nodes().contains(e.0)
                && self.nodes().contains(e.1)
    }

    /// A fresh engine with no formulas and an empty graph.
    pub fn new() -> (e: FormulaEngine)
        ensures
            e.fmap() == Map::<u64, Formula>::empty(),
            e.edges() == Set::<(u64, u64)>::empty(),
            e.nodes() == Set::<u64>::empty(),
            e.wf(),
    {
        let e = FormulaEngine { dep_graph: dg_new(), formulas: HashMap::new() };
        proof {
            assert(e.fmap() =~= Map::<u64, Formula>::empty());
        }
        e
    }

    /// Parse a formula string (an optional leading `=`, then an
    /// expression).
    pub fn parse(&self, formula: &str) -> (r: Result<Formula, FormulaError>)
        ensures
            (spec_parse_expr(spec_formula_body(formula@)) matches Some(nv) ==> (r matches Ok(f)
                && f.raw@ == formula@ && f.ast@ == nv && f.dependencies@ == spec_node_deps(nv))),
            (spec_parse_expr(spec_formula_body(formula@)) is None ==> (r matches Err(err) && err
                matches FormulaError::Parse(_))),
    {
        parse_formula(formula)
    }

    /// Evaluate a formula node against the grid.
    pub fn evaluate(&self, node: &FormulaNode, grid: &Grid) -> (r: Result<
        CellValue,
        FormulaError,
    >)
        ensures
            (spec_eval(node@, crate::eval::spec_grid_vals(grid.cells())) matches Ok(vv) ==> (r matches Ok(v) && v@ == vv)),
            (spec_eval(node@, crate::eval::spec_grid_vals(grid.cells())) matches Err(k) ==> (r matches Err(e) && spec_err_kind(
                e,
            ) == Some(k))),
    {
        evaluate(node, grid)
    }

    /// Register a formula for a cell: the cell's old incoming edges are
    /// removed, one edge is added from each dependency, and the formula
    /// is stored.  Afterwards the incoming neighbours of the cell are
    /// exactly the unique dependencies of the formula.
    pub fn register_formula(&mut self, cell: CellRef, formula: Formula)
        requires
            old(self).wf(),
            formula.dependencies@ == spec_node_deps(formula.ast@),
        ensures
            final(self).wf(),
            final(self).fmap() == old(self).fmap().insert(spec_key(cell), formula),
            final(self).edges() == Set::new(
                |e: (u64, u64)|
                    (old(self).edges().contains(e) && e.1 != spec_key(cell)) || (e.1 == spec_key(
                        cell,
                    ) && spec_dep_keys(formula).contains(e.0)),
            ),
            forall|d: u64|
                final(self).edges().contains((d, spec_key(cell))) <==> spec_dep_keys(
                    formula,
                ).contains(d),
    {
        let k = cell_key(cell);
        let ghost edges0 = self.edges();
        dg_add_node(&mut self.dep_graph, k);
        let olds = dg_incoming(&self.dep_graph, k);
        let n: usize = olds.len();
        let mut i: usize = 0;
        while i < n
            invariant
                n == olds@.len(),
                0 <= i <= n,
                self.formulas == old(self).formulas,
                dg_nodes(self.dep_graph) == dg_nodes(old(self).dep_graph).insert(k),
                forall|u: u64| olds@.contains(u) <==> edges0.contains((u, k)),
                forall|e: (u64, u64)|
                    #[trigger] dg_edges(self.dep_graph).contains(e) <==> (edges0.contains(e) && !(
                    e.1 == k && olds@.subrange(0, i as int).contains(e.0))),
            decreases n - i,
        {
            let u = olds[i];
            dg_remove_edge(&mut self.dep_graph, u, k);
            proof {
                assert forall|e: (u64, u64)|
                    #[trigger] dg_edges(self.dep_graph).contains(e) <==> (edges0.contains(e) && !(
                    e.1 == k && olds@.subrange(0, i + 1).contains(e.0))) by {
                    if e == (u, k) {
                        assert(olds@.subrange(0, i + 1)[i as int] == u);
                    } else {
                        assert((olds@.subrange(0, i + 1).contains(e.0) && e.1 == k) ==> (olds@
                            .subrange(0, i as int).contains(e.0) || e == (u, k))) by {
                            if olds@.subrange(0, i + 1).contains(e.0) && e.1 == k {
                                let x = choose|x: int|
                                    0 <= x < i + 1 && #[trigger] olds@.subrange(0, i + 1)[x]
                                        == e.0;
                                if x < i {
                                    assert(olds@.subrange(0, i as int)[x] == e.0);
                                }
                            }
                        }
                        assert(olds@.subrange(0, i as int).contains(e.0) ==> olds@.subrange(
                            0,
                            i + 1,
                        ).contains(e.0)) by {
                            if olds@.subrange(0, i as int).contains(e.0) {
                                let j = choose|j: int|
                                    0 <= j < i && #[trigger] olds@.subrange(0, i as int)[j]
                                        == e.0;
                                assert(olds@.subrange(0, i + 1)[j] == e.0);
                            }
                        }
                    }
                }
            }
            i += 1;
        }
        proof {
            assert forall|e: (u64, u64)|
                #[trigger] dg_edges(self.dep_graph).contains(e) <==> (edges0.contains(e) && e.1
                    != k) by {
                if edges0.contains(e) && e.1 == k {
                    assert(olds@.contains(e.0));
                    let j = choose|j: int| 0 <= j < olds@.len() && #[trigger] olds@[j] == e.0;
                    assert(olds@.subrange(0, n as int)[j] == e.0);
                }
                if dg_edges(self.dep_graph).contains(e) && e.1 == k {
                    assert(!olds@.subrange(0, n as int).contains(e.0));
                }
            }
        }
        let ghost edges_cleared = dg_edges(self.dep_graph);
        let ghost deps = formula.dependencies@;
        let m: usize = formula.dependencies.len();
        let mut j: usize = 0;
        while j < m
            invariant
                m == deps.len(),
                deps == formula.dependencies@,
                0 <= j <= m,
                self.formulas == old(self).formulas,
                forall|e: (u64, u64)|
                    #[trigger] dg_edges(self.dep_graph).contains(e) <==> (edges_cleared.contains(
                        e,
                    ) || (e.1 == k && exists|x: int|
                        0 <= x < j && spec_key(#[trigger] deps[x]) == e.0)),
                dg_nodes(self.dep_graph).contains(k),
                forall|c: u64|
                    dg_nodes(old(self).dep_graph).insert(k).contains(c) ==> dg_nodes(
                        self.dep_graph,
                    ).contains(c),
                forall|x: int|
                    0 <= x < j ==> dg_nodes(self.dep_graph).contains(spec_key(
                        #[trigger] deps[x],
                    )),
            decreases m - j,
        {
            let dk = cell_key(formula.dependencies[j]);
            dg_add_edge(&mut self.dep_graph, dk, k);
            proof {
                assert forall|e: (u64, u64)|
                    #[trigger] dg_edges(self.dep_graph).contains(e) <==> (edges_cleared.contains(
                        e,
                    ) || (e.1 == k && exists|x: int|
                        0 <= x < j + 1 && spec_key(#[trigger] deps[x]) == e.0)) by {
                    if e == (dk, k) {
                        assert(spec_key(deps[j as int]) == e.0);
                    }
                }
            }
            j += 1;
        }
        let ghost gform = formula;
        self.formulas.insert(k, formula);
        proof {
            assert(self.fmap() =~= old(self).fmap().insert(spec_key(cell), gform));
            assert(self.edges() =~= Set::new(
                |e: (u64, u64)|
                    (old(self).edges().contains(e) && e.1 != spec_key(cell)) || (e.1 == spec_key(
                        cell,
                    ) && spec_dep_keys(gform).contains(e.0)),
            ));
            assert forall|e: (u64, u64)| #[trigger]
                self.edges().contains(e) <==> (self.fmap().dom().contains(e.1)
                    && spec_dep_keys(self.fmap()[e.1]).contains(e.0)) by {
                if e.1 != k {
                    assert(old(self).edges().contains(e) <==> (old(self).fmap().dom().contains(
                        e.1,
                    ) && spec_dep_keys(old(self).fmap()[e.1]).contains(e.0)));
                }
            }
            assert forall|e: (u64, u64)| #[trigger]
                self.edges().contains(e) implies self.nodes().contains(e.0)
                && self.nodes().contains(e.1) by {
                if e.1 != k {
                    assert(old(self).edges().contains(e));
                    assert(old(self).nodes().contains(e.0) && old(self).nodes().contains(e.1));
                } else {
                    assert(spec_dep_keys(gform).contains(e.0));
                    let x = choose|x: int|
                        0 <= x < gform.dependencies@.len() && spec_key(
                            #[trigger] gform.dependencies@[x],
                        ) == e.0;
                    assert(dg_nodes(self.dep_graph).contains(spec_key(deps[x])));
                }
            }
        }
    }

    /// Drop a cell's formula: its incoming edges are removed and the
    /// stored formula is forgotten (a re-edit with a literal).
    pub fn unregister_formula(&mut self, cell: CellRef)
        requires
            old(self).wf(),
        ensures
            final(self).wf(),
            final(self).fmap() == old(self).fmap().remove(spec_key(cell)),
            final(self).edges() == Set::new(
                |e: (u64, u64)| old(self).edges().contains(e) && e.1 != spec_key(cell),
            ),
    {
        let k = cell_key(cell);
        let ghost edges0 = self.edges();
        let olds = dg_incoming(&self.dep_graph, k);
        let n: usize = olds.len();
        let mut i: usize = 0;
        while i < n
            invariant
                n == olds@.len(),
                0 <= i <= n,
                self.formulas == old(self).formulas,
                dg_nodes(self.dep_graph) == dg_nodes(old(self).dep_graph),
                forall|u: u64| olds@.contains(u) <==> edges0.contains((u, k)),
                forall|e: (u64, u64)|
                    #[trigger] dg_edges(self.dep_graph).contains(e) <==> (edges0.contains(e) && !(
                    e.1 == k && olds@.subrange(0, i as int).contains(e.0))),
            decreases n - i,
        {
            let u = olds[i];
            dg_remove_edge(&mut self.dep_graph, u, k);
            proof {
                assert forall|e: (u64, u64)|
                    #[trigger] dg_edges(self.dep_graph).contains(e) <==> (edges0.contains(e) && !(
                    e.1 == k && olds@.subrange(0, i + 1).contains(e.0))) by {
                    if e == (u, k) {
                        assert(olds@.subrange(0, i + 1)[i as int] == u);
                    } else {
                        assert(olds@.subrange(0, i + 1).contains(e.0) && e.1 == k ==> (olds@
                            .subrange(0, i as int).contains(e.0) || e == (u, k))) by {
                            if olds@.subrange(0, i + 1).contains(e.0) {
                                let x = choose|x: int|
                                    0 <= x < i + 1 && #[trigger] olds@.subrange(0, i + 1)[x]
                                        == e.0;
                                if x < i {
                                    assert(olds@.subrange(0, i as int)[x] == e.0);
                                }
                            }
                        }
                        assert(olds@.subrange(0, i as int).contains(e.0) ==> olds@.subrange(
                            0,
                            i + 1,
                        ).contains(e.0)) by {
                            if olds@.subrange(0, i as int).contains(e.0) {
                                let x = choose|x: int|
                                    0 <= x < i && #[trigger] olds@.subrange(0, i as int)[x]
                                        == e.0;
                                assert(olds@.subrange(0, i + 1)[x] == e.0);
                            }
                        }
                    }
                }
            }
            i += 1;
        }
        self.formulas.remove(&k);
        proof {
            assert(self.fmap() =~= old(self).fmap().remove(spec_key(cell)));
            assert forall|e: (u64, u64)|
                #[trigger] dg_edges(self.dep_graph).contains(e) <==> (edges0.contains(e) && e.1
                    != k) by {
                if edges0.contains(e) && e.1 == k {
                    assert(olds@.contains(e.0));
                    let j = choose|j: int| 0 <= j < olds@.len() && #[trigger] olds@[j] == e.0;
                    assert(olds@.subrange(0, n as int)[j] == e.0);
                }
                if dg_edges(self.dep_graph).contains(e) && e.1 == k {
                    assert(!olds@.subrange(0, n as int).contains(e.0));
                }
            }
            assert(self.edges() =~= Set::new(
                |e: (u64, u64)| old(self).edges().contains(e) && e.1 != spec_key(cell),
            ));
            assert forall|e: (u64, u64)| #[trigger]
                self.edges().contains(e) <==> (self.fmap().dom().contains(e.1)
                    && spec_dep_keys(self.fmap()[e.1]).contains(e.0)) by {
                if e.1 != k {
                    assert(old(self).edges().contains(e) <==> (old(self).fmap().dom().contains(
                        e.1,
                    ) && spec_dep_keys(old(self).fmap()[e.1]).contains(e.0)));
                }
            }
        }
    }
}

/// The value a recalculation step writes into a cell: evaluation
/// results as themselves; division by zero and type mismatches as error
/// values; anything else aborts the pass.
pub open spec fn spec_cell_result(res: Result<ValueView, EvalErr>) -> Option<ValueView> {
    match res {
        Ok(v) => Some(v),
        Err(EvalErr::DivZero) => Some(ValueView::Error("DIV/0"@)),
        Err(EvalErr::Type) => Some(ValueView::Error("VALUE"@)),
        Err(_) => None,
    }
}

/// Writing a computed value touches only cells that exist.
pub open spec fn spec_vals_put(vals: ValsView, r: CellRef, v: ValueView) -> ValsView {
    if vals.dom().contains(r) {
        vals.insert(r, v)
    } else {
        vals
    }
}

/// The value assignment after recomputing the listed cells in order:
/// each cell with a formula is evaluated against the values so far and
/// its result written back; an out-of-bounds cell or a fatal evaluation
/// error aborts the whole pass.
pub open spec fn spec_replay(
    vals: ValsView,
    rows: u32,
    cols: u32,
    fmv: Map<u64, crate::formula::NodeView>,
    keys: Seq<u64>,
) -> Option<ValsView>
    decreases keys.len(),
{
    if keys.len() == 0 {
        Some(vals)
    } else {
        let k = keys[0];
        if !fmv.dom().contains(k) {
            spec_replay(vals, rows, cols, fmv, keys.drop_first())
        } else {
            let r = spec_key_ref(k);
            if !(r.row < rows && r.col < cols) {
                None
            } else {
                match spec_cell_result(spec_eval(fmv[k], vals)) {
                    Some(v) => spec_replay(
                        spec_vals_put(vals, r, v),
                        rows,
                        cols,
                        fmv,
                        keys.drop_first(),
                    ),
                    None => None,
                }
            }
        }
    }
}

/// Whether a vector holds a key.
fn vec_contains_u64(v: &Vec<u64>, x: u64) -> (r: bool)
    ensures
        r == v@.contains(x),
{
    let n: usize = v.len();
    for i in 0..n
        invariant
            n == v@.len(),
            forall|j: int| 0 <= j < i ==> v@[j] != x,
    {
        if v[i] == x {
            return true;
        }
    }
    false
}

/// A duplicate-free key sequence drawn from a universe plus one extra
/// key has at most one more element than the universe.
pub proof fn lemma_unique_u64_in(s: Seq<u64>, uni: Seq<u64>, ex: u64)
    requires
        s.no_duplicates(),
        uni.no_duplicates(),
        forall|x: u64| s.contains(x) ==> uni.contains(x) || x == ex,
    ensures
        s.len() <= uni.len() + 1,
{
    s.unique_seq_to_set();
    uni.unique_seq_to_set();
    let target = uni.to_set().insert(ex);
    assert forall|x: u64| s.to_set().contains(x) implies target.contains(x) by {
        assert(s.contains(x));
    }
    vstd::set_lib::lemma_len_subset(s.to_set(), target);
    axiom_set_insert_len_bound(uni.to_set(), ex);
}

/// Inserting one element grows a finite set by at most one.
pub proof fn axiom_set_insert_len_bound(s: Set<u64>, x: u64)
    requires
        s.finite(),
    ensures
        s.insert(x).len() <= s.len() + 1,
{
    if s.contains(x) {
        assert(s.insert(x) =~= s);
    }
}

/// Every key on a path from a member of a successor-closed key list is
/// itself a member.
pub proof fn lemma_path_in_closed(edges: Set<(u64, u64)>, vis: Seq<u64>, p: Seq<u64>, i: int)
    requires
        forall|v: u64, u: u64|
            vis.contains(v) && edges.contains((v, u)) ==> vis.contains(u),
        p.len() >= 1,
        vis.contains(p[0]),
        forall|x: int| 0 <= x < p.len() - 1 ==> #[trigger] edges.contains((p[x], p[x + 1])),
        0 <= i < p.len(),
    ensures
        vis.contains(p[i]),
    decreases i,
{
    if i > 0 {
        lemma_path_in_closed(edges, vis, p, i - 1);
        assert(edges.contains((p[i - 1], p[(i - 1) + 1])));
    }
}

impl FormulaEngine {
    /// The keys reachable from `k0` along the dependency edges,
    /// including `k0` itself: exactly the cells a change at `k0` can
    /// affect.
    fn reachable_from(&self, k0: u64) -> (vis: Vec<u64>)
        ensures
            vis@.no_duplicates(),
            vis@.contains(k0),
            forall|v: u64| vis@.contains(v) ==> spec_reaches(self.edges(), k0, v),
            forall|v: u64, u: u64|
                vis@.contains(v) && self.edges().contains((v, u)) ==> vis@.contains(u),
    {
        let universe = dg_node_list(&self.dep_graph);
        let ghost edges = self.edges();
        let mut vis: Vec<u64> = Vec::new();
        let mut stack: Vec<u64> = Vec::new();
        vis.push(k0);
        stack.push(k0);
        proof {
            lemma_reaches_self(edges, k0);
            assert(vis@ =~= seq![k0]);
            assert(stack@ =~= seq![k0]);
            assert(vis@[0] == k0);
            assert(vis@.contains(k0));
            assert(stack@[0] == k0);
        }
        while stack.len() != 0
            invariant
                edges == self.edges(),
                universe@.no_duplicates(),
                forall|u: u64| universe@.contains(u) <==> dg_nodes(self.dep_graph).contains(u),
                vis@.no_duplicates(),
                vis@.contains(k0),
                forall|v: u64| vis@.contains(v) ==> spec_reaches(edges, k0, v),
                forall|v: u64| stack@.contains(v) ==> vis@.contains(v),
                forall|v: u64| vis@.contains(v) ==> v == k0 || dg_nodes(self.dep_graph).contains(
                    v,
                ),
                forall|v: u64, u: u64|
                    vis@.contains(v) && !stack@.contains(v) && edges.contains((v, u))
                        ==> vis@.contains(u),
            decreases (universe@.len() + 1 - vis@.len()), stack@.len(),
        {
            proof {
                lemma_unique_u64_in(vis@, universe@, k0);
            }
            let ghost stack_pre = stack@;
            let cur = match stack.pop() {
                Some(c) => c,
                None => {
                    proof {
                        assert(false);
                    }
                    return vis;
                },
            };
            proof {
                assert(stack_pre =~= stack@.push(cur));
                assert forall|v: u64, u: u64|
                    vis@.contains(v) && v != cur && !stack@.contains(v) && edges.contains(
                        (v, u),
                    ) implies vis@.contains(u) by {
                    if stack_pre.contains(v) {
                        let x = choose|x: int| 0 <= x < stack_pre.len() && stack_pre[x] == v;
                        if x < stack_pre.len() - 1 {
                            assert(stack@[x] == v);
                            assert(stack@.contains(v));
                        } else {
                            assert(stack_pre[x] == cur);
                        }
                        assert(false);
                    }
                }
            }
            let outs = dg_outgoing(&self.dep_graph, cur);
            let m: usize = outs.len();
            let ghost vis_before = vis@;
            let ghost s0 = stack@.len();
            let mut t: usize = 0;
            while t < m
                invariant
                    edges == self.edges(),
                    universe@.no_duplicates(),
                    forall|u: u64|
                        universe@.contains(u) <==> dg_nodes(self.dep_graph).contains(u),
                    m == outs@.len(),
                    0 <= t <= m,
                    forall|u: u64| outs@.contains(u) <==> edges.contains((cur, u)),
                    forall|u: u64| outs@.contains(u) ==> dg_nodes(self.dep_graph).contains(u),
                    vis@.no_duplicates(),
                    vis@.contains(k0),
                    forall|v: u64| vis@.contains(v) ==> spec_reaches(edges, k0, v),
                    spec_reaches(edges, k0, cur),
                    forall|v: u64| stack@.contains(v) ==> vis@.contains(v),
                    forall|v: u64|
                        vis@.contains(v) ==> v == k0 || dg_nodes(self.dep_graph).contains(v),
                    forall|v: u64, u: u64|
                        vis@.contains(v) && v != cur && !stack@.contains(v) && edges.contains(
                            (v, u),
                        ) ==> vis@.contains(u),
                    forall|x: int| 0 <= x < t ==> vis@.contains(#[trigger] outs@[x]),
                    forall|v: u64| vis_before.contains(v) ==> vis@.contains(v),
                    stack@.len() + vis_before.len() == s0 + vis@.len(),
                    vis_before.len() <= vis@.len(),
                decreases m - t,
            {
                let u = outs[t];
                if !vec_contains_u64(&vis, u) {
                    proof {
                        assert(outs@.contains(u)) by {
                            assert(outs@[t as int] == u);
                        }
                        lemma_reaches_step(edges, k0, cur, u);
                    }
                    let ghost stack_mid = stack@;
                    let ghost vis_mid = vis@;
                    vis.push(u);
                    stack.push(u);
                    proof {
                        assert(vis@[vis@.len() - 1] == u);
                        assert(vis@.contains(u));
                        assert forall|x: int, y: int|
                            0 <= x < y < vis@.len() implies vis@[x] != vis@[y] by {
                            if y < vis@.len() - 1 {
                                assert(vis@[x] == vis_mid[x] && vis@[y] == vis_mid[y]);
                            } else {
                                assert(vis@[y] == u);
                                assert(vis@[x] == vis_mid[x]);
                                if vis@[x] == u {
                                    assert(vis_mid.contains(u));
                                }
                            }
                        }
                        assert forall|v: u64| stack@.contains(v) implies vis@.contains(v) by {
                            let x = choose|x: int| 0 <= x < stack@.len() && stack@[x] == v;
                            if x < stack_mid.len() {
                                assert(stack_mid[x] == v);
                                assert(vis_mid.contains(v));
                                let y = choose|y: int|
                                    0 <= y < vis_mid.len() && vis_mid[y] == v;
                                assert(vis@[y] == v);
                            } else {
                                assert(v == u);
                                assert(vis@[vis@.len() - 1] == u);
                            }
                        }
                        assert forall|v: u64| vis_mid.contains(v) implies vis@.contains(v) by {
                            let y = choose|y: int| 0 <= y < vis_mid.len() && vis_mid[y] == v;
                            assert(vis@[y] == v);
                        }
                        assert forall|v: u64|
                            vis@.contains(v) implies v == k0 || dg_nodes(
                            self.dep_graph,
                        ).contains(v) by {
                            let y = choose|y: int| 0 <= y < vis@.len() && vis@[y] == v;
                            if y < vis_mid.len() {
                                assert(vis_mid[y] == v);
                                assert(vis_mid.contains(v));
                            } else {
                                assert(v == u);
                            }
                        }
                        assert forall|v: u64, u2: u64|
                            vis@.contains(v) && v != cur && !stack@.contains(v)
                                && edges.contains((v, u2)) implies vis@.contains(u2) by {
                            if v == u {
                                assert(stack@[stack@.len() - 1] == u);
                                assert(false);
                            } else {
                                let y = choose|y: int| 0 <= y < vis@.len() && vis@[y] == v;
                                assert(y < vis_mid.len());
                                assert(vis_mid.contains(v));
                                assert(!stack_mid.contains(v)) by {
                                    if stack_mid.contains(v) {
                                        let z = choose|z: int|
                                            0 <= z < stack_mid.len() && stack_mid[z] == v;
                                        assert(stack@[z] == v);
                                    }
                                }
                                assert(vis_mid.contains(u2));
                                let w = choose|w: int|
                                    0 <= w < vis_mid.len() && vis_mid[w] == u2;
                                assert(vis@[w] == u2);
                            }
                        }
                    }
                }
                proof {
                    assert(outs@[t as int] == u);
                    assert(vis@.contains(u));
                }
                t += 1;
            }
            proof {
                assert forall|v: u64, u: u64|
                    vis@.contains(v) && !stack@.contains(v) && edges.contains((v, u))
                        implies vis@.contains(u) by {
                    if v == cur {
                        assert(outs@.contains(u));
                        let x = choose|x: int| 0 <= x < outs@.len() && outs@[x] == u;
                        assert(vis@.contains(outs@[x]));
                    }
                }
                lemma_unique_u64_in(vis@, universe@, k0);
            }
        }
        vis
    }
}

/// Unpacking is inverted exactly by packing.
pub proof fn lemma_key_unroundtrip(k: u64)
    ensures
        spec_key(spec_key_ref(k)) == k,
{
    vstd::arithmetic::div_mod::lemma_fundamental_div_mod(k as int, 0x1_0000_0000);
    assert((k as int) / 0x1_0000_0000 < 0x1_0000_0000) by (nonlinear_arith)
        requires 0 <= (k as int), (k as int) < 0x1_0000_0000_0000_0000;
    assert(0 <= (k as int) % 0x1_0000_0000 < 0x1_0000_0000) by (nonlinear_arith)
        requires 0 <= (k as int);
}

/// A member of a successor-closed key list reaches only members.
pub proof fn lemma_reachable_in_closed(edges: Set<(u64, u64)>, vis: Seq<u64>, k0: u64, b: u64)
    requires
        vis.contains(k0),
        forall|v: u64, u: u64| vis.contains(v) && edges.contains((v, u)) ==> vis.contains(u),
        spec_reaches(edges, k0, b),
    ensures
        vis.contains(b),
{
    let p = choose|p: Seq<u64>| #[trigger] spec_is_path(edges, p, k0, b);
    lemma_path_in_closed(edges, vis, p, p.len() - 1);
}

/// What writing one computed value does to the value assignment: the
/// value changes at the written reference if a cell is there; presence,
/// formulas and formats are untouched.
pub proof fn lemma_set_computed_vals(
    cm: crate::grid::ColumnsView,
    cm2: crate::grid::ColumnsView,
    r: CellRef,
    value: CellValue,
    rows: u32,
    cols: u32,
)
    requires
        crate::grid::spec_cols_wf(cm, rows, cols),
        cm2 == (match spec_cells_at(cm, r) {
            Some(c) => spec_cells_put(
                cm,
                r,
                Cell { value: value, formula: c.formula, format: c.format },
            ),
            None => cm,
        }),
    ensures
        spec_grid_vals(cm2) == spec_vals_put(spec_grid_vals(cm), r, value@),
        forall|r2: CellRef|
            #[trigger] spec_cells_at(cm2, r2) is Some <==> spec_cells_at(cm, r2) is Some,
        forall|r2: CellRef|
            spec_cells_at(cm2, r2) is Some ==> ((#[trigger] spec_cells_at(
                cm2,
                r2,
            ))->Some_0.formula == spec_cells_at(cm, r2)->Some_0.formula && spec_cells_at(
                cm2,
                r2,
            )->Some_0.format == spec_cells_at(cm, r2)->Some_0.format),
{
    match spec_cells_at(cm, r) {
        None => {
            assert(!spec_grid_vals(cm).dom().contains(r));
            assert(spec_grid_vals(cm) =~= spec_vals_put(spec_grid_vals(cm), r, value@));
        },
        Some(c) => {
            let cell = Cell { value: value, formula: c.formula, format: c.format };
            assert(cm2 == spec_cells_put(cm, r, cell));
            assert forall|r2: CellRef|
                #[trigger] spec_cells_at(cm2, r2) == (if r2 == r {
                    Some(cell)
                } else {
                    spec_cells_at(cm, r2)
                }) by {
                crate::grid::lemma_cells_put_at(cm, r, cell, r2, rows, cols);
            }
            assert(spec_grid_vals(cm2) =~= spec_vals_put(spec_grid_vals(cm), r, value@));
        },
    }
}

/// The formulas by key, reduced to their AST models.
pub open spec fn spec_fmapv(fm: Map<u64, Formula>) -> Map<u64, crate::formula::NodeView> {
    fm.map_values(|f: Formula| f.ast@)
}

/// The packed keys of an AST's dependencies.
pub open spec fn spec_dep_key_set(nv: crate::formula::NodeView) -> Set<u64> {
    Set::new(
        |d: u64|
            exists|i: int|
                0 <= i < spec_node_deps(nv).len() && spec_key(#[trigger] spec_node_deps(nv)[i])
                    == d,
    )
}

/// An admissible recomputation order for a change at `k0`: no key twice,
/// every edge pointing forward, every key reachable from `k0`, and every
/// reachable formula cell present.
pub open spec fn spec_admissible_order(
    edges: Set<(u64, u64)>,
    fmv: Map<u64, crate::formula::NodeView>,
    k0: u64,
    keys: Seq<u64>,
) -> bool {
    &&& keys.no_duplicates()
    &&& forall|i: int, j: int|
        0 <= i < keys.len() && 0 <= j < keys.len() && edges.contains(
            (#[trigger] keys[i], #[trigger] keys[j]),
        ) ==> i < j
    &&& forall|i: int| 0 <= i < keys.len() ==> spec_reaches(edges, k0, #[trigger] keys[i])
    &&& forall|k: u64| fmv.dom().contains(k) && spec_reaches(edges, k0, k) ==> keys.contains(k)
}

/// When a recalculation from `k0` is owed success: the graph is acyclic
/// and the replay of every admissible order runs through.
pub open spec fn spec_recalc_succeeds(
    edges: Set<(u64, u64)>,
    fmv: Map<u64, crate::formula::NodeView>,
    vals: ValsView,
    rows: u32,
    cols: u32,
    k0: u64,
) -> bool {
    &&& !spec_has_cycle(edges)
    &&& forall|keys: Seq<u64>|
        spec_admissible_order(edges, fmv, k0, keys) ==> (#[trigger] spec_replay(
            vals,
            rows,
            cols,
            fmv,
            keys,
        )) is Some
}

/// From a key that is not a node, only the key itself is reachable.
pub proof fn lemma_unreachable_from_absent(
    edges: Set<(u64, u64)>,
    nodes: Set<u64>,
    k0: u64,
    k: u64,
)
    requires
        !nodes.contains(k0),
        forall|e: (u64, u64)| #[trigger] edges.contains(e) ==> nodes.contains(e.0),
        spec_reaches(edges, k0, k),
    ensures
        k == k0,
{
    let p = choose|p: Seq<u64>| #[trigger] spec_is_path(edges, p, k0, k);
    if p.len() >= 2 {
        assert(edges.contains((p[0int], p[0int + 1])));
        assert(false);
    }
}

impl FormulaEngine {
    /// Recalculate the cell and everything that transitively reads it.
    ///
    /// The affected cells are recomputed in an order where every
    /// dependency precedes its dependents, against a staging copy of the
    /// grid that is committed only when the whole pass succeeds; a cycle
    /// anywhere in the graph aborts the pass with a circular-reference
    /// error and leaves every cell as it was.  Success is owed whenever
    /// the graph is acyclic and the replay of every admissible order runs
    /// through; the returned list holds exactly the graph nodes reachable
    /// from the changed cell, in recomputation order.
    #[verifier::rlimit(100)]
    pub fn recalculate(&self, grid: &mut Grid, changed: CellRef) -> (r: Result<
        Vec<CellRef>,
        FormulaError,
    >)
        requires
            self.wf(),
            old(grid).wf(),
        ensures
            final(grid).wf(),
            final(grid).rows == old(grid).rows,
            final(grid).cols == old(grid).cols,
            final(grid).widths() == old(grid).widths(),
            final(grid).heights() == old(grid).heights(),
            final(grid).spec_default_col_width() == old(grid).spec_default_col_width(),
            final(grid).spec_default_row_height() == old(grid).spec_default_row_height(),
            ((r matches Err(e) && e matches FormulaError::CircularReference) <==> spec_has_cycle(
                self.edges(),
            )),
            (r is Err ==> final(grid).cells() == old(grid).cells()),
            (spec_recalc_succeeds(
                self.edges(),
                spec_fmapv(self.fmap()),
                spec_grid_vals(old(grid).cells()),
                old(grid).rows,
                old(grid).cols,
                spec_key(changed),
            ) ==> r is Ok),
            (r matches Ok(list) ==> {
                let skeys = list@.map_values(|c: CellRef| spec_key(c));
                &&& skeys.no_duplicates()
                &&& forall|i: int, j: int|
                    0 <= i < skeys.len() && 0 <= j < skeys.len() && self.edges().contains(
                        (skeys[i], skeys[j]),
                    ) ==> i < j
                &&& forall|k: u64|
                    #[trigger] skeys.contains(k) <==> (self.nodes().contains(k) && spec_reaches(
                        self.edges(),
                        spec_key(changed),
                        k,
                    ))
                &&& (self.nodes().contains(spec_key(changed)) ==> skeys.contains(
                    spec_key(changed),
                ))
                &&& (!self.nodes().contains(spec_key(changed)) ==> list@ == Seq::<
                    CellRef,
                >::empty())
                &&& forall|i: int|
                    0 <= i < skeys.len() ==> spec_reaches(
                        self.edges(),
                        spec_key(changed),
                        #[trigger] skeys[i],
                    )
                &&& forall|k: u64|
                    self.fmap().dom().contains(k) && spec_reaches(
                        self.edges(),
                        spec_key(changed),
                        k,
                    ) ==> skeys.contains(k)
                &&& spec_replay(
                    spec_grid_vals(old(grid).cells()),
                    old(grid).rows,
                    old(grid).cols,
                    spec_fmapv(self.fmap()),
                    skeys,
                ) == Some(spec_grid_vals(final(grid).cells()))
                &&& forall|r2: CellRef|
                    #[trigger] spec_cells_at(final(grid).cells(), r2) is Some <==> spec_cells_at(
                        old(grid).cells(),
                        r2,
                    ) is Some
                &&& forall|r2: CellRef|
                    spec_cells_at(final(grid).cells(), r2) is Some ==> ((#[trigger] spec_cells_at(
                        final(grid).cells(),
                        r2,
                    ))->Some_0.formula == spec_cells_at(old(grid).cells(), r2)->Some_0.formula
                        && spec_cells_at(final(grid).cells(), r2)->Some_0.format == spec_cells_at(
                        old(grid).cells(),
                        r2,
                    )->Some_0.format)
            }),
    {
        let k0 = cell_key(changed);
        let vis = self.reachable_from(k0);
        let order = match dg_topo(&self.dep_graph) {
            Ok(o) => o,
            Err(_) => {
                return Err(FormulaError::CircularReference);
            },
        };
        // Keep the affected keys, in topological order.
        let mut sorted: Vec<u64> = Vec::new();
        let ghost mut idxs: Seq<int> = Seq::empty();
        let n: usize = order.len();
        let mut t: usize = 0;
        while t < n
            invariant
                n == order@.len(),
                0 <= t <= n,
                sorted@.len() == idxs.len(),
                forall|x: int| 0 <= x < idxs.len() ==> 0 <= #[trigger] idxs[x] < t,
                forall|x: int, y: int| 0 <= x < y < idxs.len() ==> idxs[x] < idxs[y],
                forall|x: int|
                    0 <= x < sorted@.len() ==> #[trigger] sorted@[x] == order@[idxs[x]],
                forall|x: int| 0 <= x < sorted@.len() ==> vis@.contains(#[trigger] sorted@[x]),
                forall|u: u64|
                    #[trigger] order@.subrange(0, t as int).contains(u) && vis@.contains(u)
                        ==> sorted@.contains(u),
            decreases n - t,
        {
            let key = order[t];
            if vec_contains_u64(&vis, key) {
                let ghost olds = sorted@;
                sorted.push(key);
                proof {
                    idxs = idxs.push(t as int);
                    assert(sorted@[sorted@.len() - 1] == order@[t as int]);
                    assert forall|u: u64|
                        #[trigger] order@.subrange(0, t + 1).contains(u) && vis@.contains(u)
                            implies sorted@.contains(u) by {
                        let x = choose|x: int|
                            0 <= x < t + 1 && #[trigger] order@.subrange(0, t + 1)[x] == u;
                        if x < t {
                            assert(order@.subrange(0, t as int)[x] == u);
                            assert(order@.subrange(0, t as int).contains(u));
                            let y = choose|y: int| 0 <= y < olds.len() && olds[y] == u;
                            assert(sorted@[y] == u);
                        } else {
                            assert(u == order@[t as int]);
                            assert(sorted@[sorted@.len() - 1] == u);
                        }
                    }
                }
            } else {
                proof {
                    assert forall|u: u64|
                        #[trigger] order@.subrange(0, t + 1).contains(u) && vis@.contains(u)
                            implies sorted@.contains(u) by {
                        let x = choose|x: int|
                            0 <= x < t + 1 && #[trigger] order@.subrange(0, t + 1)[x] == u;
                        if x < t {
                            assert(order@.subrange(0, t as int)[x] == u);
                            assert(order@.subrange(0, t as int).contains(u));
                        } else {
                            assert(u == order@[t as int]);
                            assert(!vis@.contains(key));
                        }
                    }
                }
            }
            t += 1;
        }
        let ghost skeys = sorted@;
        let ghost edges = self.edges();
        // The kept keys form an admissible order: exactly the reachable
        // nodes, no key twice, every edge pointing forward.
        proof {
            assert(order@.subrange(0, n as int) =~= order@);
            assert forall|x: int, y: int|
                0 <= x < y < skeys.len() implies skeys[x] != skeys[y] by {
                assert(skeys[x] == order@[idxs[x]]);
                assert(skeys[y] == order@[idxs[y]]);
                assert(idxs[x] < idxs[y]);
            }
            assert(skeys.no_duplicates());
            assert forall|x: int, y: int|
                0 <= x < skeys.len() && 0 <= y < skeys.len() && edges.contains(
                    (#[trigger] skeys[x], #[trigger] skeys[y]),
                ) implies x < y by {
                assert(skeys[x] == order@[idxs[x]]);
                assert(skeys[y] == order@[idxs[y]]);
                if x >= y {
                    if x == y {
                        assert(idxs[x] < idxs[x] + 1);
                    } else {
                        assert(idxs[y] < idxs[x]);
                    }
                }
            }
            assert forall|k: u64|
                #[trigger] skeys.contains(k) implies (self.nodes().contains(k) && spec_reaches(
                edges,
                k0 as u64,
                k,
            )) by {
                let x = choose|x: int| 0 <= x < skeys.len() && skeys[x] == k;
                assert(skeys[x] == order@[idxs[x]]);
                assert(order@.contains(k)) by {
                    assert(order@[idxs[x]] == k);
                }
                assert(vis@.contains(skeys[x]));
            }
            assert forall|k: u64|
                self.nodes().contains(k) && spec_reaches(edges, k0 as u64, k)
                    implies #[trigger] skeys.contains(k) by {
                lemma_reachable_in_closed(edges, vis@, k0, k);
                assert(order@.contains(k));
                assert(order@.subrange(0, n as int).contains(k));
            }
            assert forall|k: u64|
                self.fmap().dom().contains(k) && spec_reaches(edges, k0 as u64, k)
                    implies #[trigger] skeys.contains(k) by {
                assert(self.nodes().contains(k));
            }
            assert(spec_admissible_order(edges, spec_fmapv(self.fmap()), k0 as u64, skeys)) by {
                assert forall|k: u64|
                    spec_fmapv(self.fmap()).dom().contains(k) && spec_reaches(edges, k0 as u64, k)
                        implies skeys.contains(k) by {
                    assert(self.fmap().dom().contains(k));
                }
            }
        }
        // Recompute into a staging copy, in order.
        let mut work = grid.duplicate();
        let ghost vals0 = spec_grid_vals(grid.cells());
        let ghost fm = spec_fmapv(self.fmap());
        let sn: usize = sorted.len();
        proof {
            assert(skeys.subrange(0, sn as int) =~= skeys);
            assert(spec_grid_vals(work.cells()) == vals0);
        }
        let mut i: usize = 0;
        while i < sn
            invariant
                self.wf(),
                !spec_has_cycle(self.edges()),
                edges == self.edges(),
                spec_admissible_order(self.edges(), spec_fmapv(self.fmap()), k0 as u64, skeys),
                forall|k: u64|
                    #[trigger] skeys.contains(k) <==> (self.nodes().contains(k) && spec_reaches(
                        edges,
                        k0 as u64,
                        k,
                    )),
                k0 == spec_key(changed),
                old(grid).wf(),
                grid.wf(),
                grid == old(grid),
                work.wf(),
                sn == sorted@.len(),
                0 <= i <= sn,
                skeys == sorted@,
                fm == spec_fmapv(self.fmap()),
                vals0 == spec_grid_vals(old(grid).cells()),
                work.rows == old(grid).rows,
                work.cols == old(grid).cols,
                work.widths() == old(grid).widths(),
                work.heights() == old(grid).heights(),
                work.spec_default_col_width() == old(grid).spec_default_col_width(),
                work.spec_default_row_height() == old(grid).spec_default_row_height(),
                spec_replay(vals0, old(grid).rows, old(grid).cols, fm, skeys) == spec_replay(
                    spec_grid_vals(work.cells()),
                    old(grid).rows,
                    old(grid).cols,
                    fm,
                    skeys.subrange(i as int, sn as int),
                ),
                forall|r2: CellRef|
                    #[trigger] spec_cells_at(work.cells(), r2) is Some <==> spec_cells_at(
                        old(grid).cells(),
                        r2,
                    ) is Some,
                forall|r2: CellRef|
                    spec_cells_at(work.cells(), r2) is Some ==> ((#[trigger] spec_cells_at(
                        work.cells(),
                        r2,
                    ))->Some_0.formula == spec_cells_at(old(grid).cells(), r2)->Some_0.formula
                        && spec_cells_at(work.cells(), r2)->Some_0.format == spec_cells_at(
                        old(grid).cells(),
                        r2,
                    )->Some_0.format),
            decreases sn - i,
        {
            let key = sorted[i];
            proof {
                assert(skeys.subrange(i as int, sn as int)[0] == key);
                assert(skeys.subrange(i as int, sn as int).drop_first() =~= skeys.subrange(
                    i + 1,
                    sn as int,
                ));
            }
            match self.formulas.get(&key) {
                None => {
                },
                Some(f) => {
                    let rf = key_cell(key);
                    if !(rf.row < work.rows && rf.col < work.cols) {
                        proof {
                            assert(spec_replay(
                                spec_grid_vals(work.cells()),
                                old(grid).rows,
                                old(grid).cols,
                                fm,
                                skeys.subrange(i as int, sn as int),
                            ) is None);
                            assert(spec_replay(vals0, old(grid).rows, old(grid).cols, fm, skeys)
                                is None);
                        }
                        return Err(
                            FormulaError::Grid(String::from_str("cell out of bounds")),
                        );
                    }
                    let value: CellValue = match evaluate(&f.ast, &work) {
                        Ok(v) => v,
                        Err(e) => {
                            match e {
                                FormulaError::DivisionByZero => CellValue::Error(
                                    String::from_str("DIV/0"),
                                ),
                                FormulaError::TypeError { expected, got } => CellValue::Error(
                                    String::from_str("VALUE"),
                                ),
                                _ => {
                                    proof {
                                        assert(spec_eval(
                                            f.ast@,
                                            spec_grid_vals(work.cells()),
                                        ) is Err);
                                        assert(spec_cell_result(spec_eval(
                                            f.ast@,
                                            spec_grid_vals(work.cells()),
                                        )) is None);
                                        assert(spec_replay(
                                            spec_grid_vals(work.cells()),
                                            old(grid).rows,
                                            old(grid).cols,
                                            fm,
                                            skeys.subrange(i as int, sn as int),
                                        ) is None);
                                        assert(spec_replay(vals0, old(grid).rows,
                                            old(grid).cols, fm, skeys) is None);
                                    }
                                    return Err(e);
                                },
                            }
                        },
                    };
                    let ghost work_cells = work.cells();
                    let ghost gvalue = value;
                    let ghost cm2g = (match spec_cells_at(work_cells, rf) {
                        Some(c) => spec_cells_put(
                            work_cells,
                            rf,
                            Cell { value: gvalue, formula: c.formula, format: c.format },
                        ),
                        None => work_cells,
                    });
                    proof {
                        lemma_set_computed_vals(work_cells, cm2g, rf, gvalue, work.rows,
                            work.cols);
                    }
                    match work.set_computed_value(rf, value) {
                        Ok(_) => {
                        },
                        Err(_) => {
                            proof {
                                assert(false);
                            }
                            return Err(
                                FormulaError::Grid(String::from_str("cell out of bounds")),
                            );
                        },
                    }
                    proof {
                        assert(work.cells() == cm2g);
                        assert forall|r2: CellRef|
                            #[trigger] spec_cells_at(work.cells(), r2) is Some <==> spec_cells_at(
                            old(grid).cells(),
                            r2,
                        ) is Some by {
                            assert(spec_cells_at(cm2g, r2) is Some <==> spec_cells_at(
                                work_cells,
                                r2,
                            ) is Some);
                            assert(spec_cells_at(work_cells, r2) is Some <==> spec_cells_at(
                                old(grid).cells(),
                                r2,
                            ) is Some);
                        }
                        assert forall|r2: CellRef|
                            spec_cells_at(work.cells(), r2) is Some implies ((
                        #[trigger] spec_cells_at(work.cells(), r2))->Some_0.formula
                            == spec_cells_at(old(grid).cells(), r2)->Some_0.formula
                            && spec_cells_at(work.cells(), r2)->Some_0.format == spec_cells_at(
                            old(grid).cells(),
                            r2,
                        )->Some_0.format) by {
                            assert(spec_cells_at(cm2g, r2) is Some);
                            assert(spec_cells_at(cm2g, r2)->Some_0.formula == spec_cells_at(
                                work_cells,
                                r2,
                            )->Some_0.formula && spec_cells_at(cm2g, r2)->Some_0.format
                                == spec_cells_at(work_cells, r2)->Some_0.format);
                            assert(spec_cells_at(work_cells, r2) is Some);
                        }
                    }
                },
            }
            i += 1;
        }
        proof {
            assert(skeys.subrange(sn as int, sn as int) =~= Seq::<u64>::empty());
        }
        // Commit the staged results.
        *grid = work;
        // Report the affected cells in recomputation order.
        let mut refs: Vec<CellRef> = Vec::new();
        let mut j: usize = 0;
        while j < sn
            invariant
                sn == sorted@.len(),
                0 <= j <= sn,
                refs@.len() == j,
                forall|x: int|
                    0 <= x < j ==> spec_key(#[trigger] refs@[x]) == sorted@[x] && refs@[x]
                        == spec_key_ref(sorted@[x]),
            decreases sn - j,
        {
            let c = key_cell(sorted[j]);
            proof {
                lemma_key_unroundtrip(sorted@[j as int]);
            }
            refs.push(c);
            j += 1;
        }
        proof {
            let rkeys = refs@.map_values(|c: CellRef| spec_key(c));
            assert(rkeys =~= sorted@);
            if self.nodes().contains(k0 as u64) {
                lemma_reaches_self(edges, k0);
                assert(rkeys.contains(k0 as u64));
            } else {
                if refs@.len() > 0 {
                    assert(rkeys.contains(rkeys[0]));
                    assert(self.nodes().contains(rkeys[0]));
                    assert(spec_reaches(edges, k0 as u64, rkeys[0]));
                    assert forall|e: (u64, u64)|
                        #[trigger] edges.contains(e) implies self.nodes().contains(e.0) by {
                    }
                    lemma_unreachable_from_absent(edges, self.nodes(), k0, rkeys[0]);
                    assert(false);
                }
                assert(refs@ =~= Seq::<CellRef>::empty());
            }
        }
        Ok(refs)
    }
}

/// A replay never creates or removes cells.
pub proof fn lemma_replay_presence(
    vals: ValsView,
    rows: u32,
    cols: u32,
    fm: Map<u64, crate::formula::NodeView>,
    ks: Seq<u64>,
    out: ValsView,
)
    requires
        spec_replay(vals, rows, cols, fm, ks) == Some(out),
    ensures
        forall|rf: CellRef| out.dom().contains(rf) == vals.dom().contains(rf),
    decreases ks.len(),
{
    if ks.len() > 0 {
        let k = ks[0];
        if !fm.dom().contains(k) {
            lemma_replay_presence(vals, rows, cols, fm, ks.drop_first(), out);
        } else {
            let r = spec_key_ref(k);
            let v = spec_cell_result(spec_eval(fm[k], vals))->Some_0;
            lemma_replay_presence(
                spec_vals_put(vals, r, v),
                rows,
                cols,
                fm,
                ks.drop_first(),
                out,
            );
        }
    }
}

/// A replay changes values only at the references of the listed keys.
pub proof fn lemma_replay_frame(
    vals: ValsView,
    rows: u32,
    cols: u32,
    fm: Map<u64, crate::formula::NodeView>,
    ks: Seq<u64>,
    out: ValsView,
    rf: CellRef,
)
    requires
        spec_replay(vals, rows, cols, fm, ks) == Some(out),
        forall|i: int| 0 <= i < ks.len() ==> spec_key_ref(#[trigger] ks[i]) != rf,
    ensures
        crate::eval::vals_agree_at(vals, out, rf),
    decreases ks.len(),
{
    if ks.len() > 0 {
        let k = ks[0];
        let rest = ks.drop_first();
        assert forall|i: int| 0 <= i < rest.len() implies spec_key_ref(#[trigger] rest[i])
            != rf by {
            assert(rest[i] == ks[i + 1]);
        }
        if !fm.dom().contains(k) {
            lemma_replay_frame(vals, rows, cols, fm, rest, out, rf);
        } else {
            let r = spec_key_ref(k);
            assert(ks[0] == k);
            assert(r != rf);
            let v = spec_cell_result(spec_eval(fm[k], vals))->Some_0;
            lemma_replay_frame(spec_vals_put(vals, r, v), rows, cols, fm, rest, out, rf);
        }
    }
}

/// Recalculation closure: after a successful replay over a list in which
/// every dependency of a listed formula cell occurs only strictly
/// earlier, each listed cell that exists and has a formula holds exactly
/// the value of one evaluation of its formula against the final values.
pub proof fn lemma_replay_consistent(
    vals0: ValsView,
    rows: u32,
    cols: u32,
    fm: Map<u64, crate::formula::NodeView>,
    keys: Seq<u64>,
    finalv: ValsView,
)
    requires
        keys.no_duplicates(),
        forall|j: int, i: int, x: int|
            0 <= j < keys.len() && j <= i < keys.len() && fm.dom().contains(keys[j]) && 0 <= x
                < spec_node_deps(fm[keys[j]]).len() ==> spec_key(
                #[trigger] spec_node_deps(fm[#[trigger] keys[j]])[x],
            ) != #[trigger] keys[i],
        spec_replay(vals0, rows, cols, fm, keys) == Some(finalv),
    ensures
        forall|j: int|
            0 <= j < keys.len() && fm.dom().contains(#[trigger] keys[j]) && finalv.dom().contains(
                spec_key_ref(keys[j]),
            ) ==> Some(finalv[spec_key_ref(keys[j])]) == spec_cell_result(
                spec_eval(fm[keys[j]], finalv),
            ),
    decreases keys.len(),
{
    if keys.len() == 0 {
        return;
    }
    let k = keys[0];
    let rest = keys.drop_first();
    // The ordering premise carries to the tail.
    assert forall|j: int, i: int, x: int|
        0 <= j < rest.len() && j <= i < rest.len() && fm.dom().contains(rest[j]) && 0 <= x
            < spec_node_deps(fm[rest[j]]).len() implies spec_key(
        #[trigger] spec_node_deps(fm[#[trigger] rest[j]])[x],
    ) != #[trigger] rest[i] by {
        assert(rest[j] == keys[j + 1]);
        assert(rest[i] == keys[i + 1]);
        assert(spec_key(spec_node_deps(fm[keys[j + 1]])[x]) != keys[i + 1]);
    }
    if !fm.dom().contains(k) {
        lemma_replay_consistent(vals0, rows, cols, fm, rest, finalv);
        assert forall|j: int|
            0 <= j < keys.len() && fm.dom().contains(#[trigger] keys[j]) && finalv.dom().contains(
                spec_key_ref(keys[j]),
            ) implies Some(finalv[spec_key_ref(keys[j])]) == spec_cell_result(
            spec_eval(fm[keys[j]], finalv),
        ) by {
            if j > 0 {
                assert(rest[j - 1] == keys[j]);
            }
        }
        return;
    }
    let r = spec_key_ref(k);
    let res = spec_cell_result(spec_eval(fm[k], vals0));
    let v = res->Some_0;
    let vals1 = spec_vals_put(vals0, r, v);
    assert(spec_replay(vals1, rows, cols, fm, rest) == Some(finalv));
    lemma_replay_consistent(vals1, rows, cols, fm, rest, finalv);
    // No dependency of any listed cell is a listed cell at or after it,
    // so the head cell's reads are never overwritten.
    assert forall|x: CellRef|
        spec_node_deps(fm[k]).contains(x) implies crate::eval::vals_agree_at(
        vals0,
        finalv,
        x,
    ) by {
        let d = choose|d: int|
            0 <= d < spec_node_deps(fm[k]).len() && spec_node_deps(fm[k])[d] == x;
        assert(spec_node_deps(fm[keys[0]])[d] == x);
        assert forall|i: int| 0 <= i < keys.len() implies spec_key_ref(#[trigger] keys[i])
            != x by {
            assert(spec_key(spec_node_deps(fm[keys[0]])[d]) != keys[i]);
            if spec_key_ref(keys[i]) == x {
                lemma_key_unroundtrip(keys[i]);
            }
        }
        assert(r != x) by {
            assert(spec_key(spec_node_deps(fm[keys[0]])[d]) != keys[0]);
            if r == x {
                lemma_key_unroundtrip(keys[0]);
            }
        }
        assert(crate::eval::vals_agree_at(vals0, vals1, x));
        assert forall|i: int| 0 <= i < rest.len() implies spec_key_ref(#[trigger] rest[i])
            != x by {
            assert(rest[i] == keys[i + 1]);
        }
        lemma_replay_frame(vals1, rows, cols, fm, rest, finalv, x);
    }
    crate::eval::lemma_eval_frame(fm[k], vals0, finalv);
    // The head cell's own written value survives the tail.
    assert forall|j: int|
        0 <= j < keys.len() && fm.dom().contains(#[trigger] keys[j]) && finalv.dom().contains(
            spec_key_ref(keys[j]),
        ) implies Some(finalv[spec_key_ref(keys[j])]) == spec_cell_result(
        spec_eval(fm[keys[j]], finalv),
    ) by {
        if j == 0 {
            assert forall|i: int| 0 <= i < rest.len() implies spec_key_ref(#[trigger] rest[i])
                != r by {
                assert(rest[i] == keys[i + 1]);
                if spec_key_ref(rest[i]) == r {
                    lemma_key_unroundtrip(rest[i]);
                    lemma_key_unroundtrip(k);
                    assert(spec_key(spec_key_ref(rest[i])) == spec_key(r));
                    assert(rest[i] == k);
                    assert(keys[i + 1] == keys[0]);
                }
            }
            lemma_replay_frame(vals1, rows, cols, fm, rest, finalv, r);
            lemma_replay_presence(vals1, rows, cols, fm, rest, finalv);
            assert(finalv.dom().contains(r) == vals1.dom().contains(r));
            assert(vals0.dom().contains(r) == vals1.dom().contains(r));
            if finalv.dom().contains(r) {
                assert(vals1[r] == v);
                assert(finalv[r] == v);
            }
        } else {
            assert(rest[j - 1] == keys[j]);
        }
    }
}

/// Recalculation closure for an engine's own recompute list: when the
/// listed keys come out of a topological pass over a well-formed engine
/// (every edge pointing forward in the list) and the replay succeeded,
/// every listed cell that exists and has a formula holds the value of a
/// single evaluation of its formula against the final state.
pub proof fn lemma_recalc_list_consistent(
    eng: FormulaEngine,
    vals0: ValsView,
    rows: u32,
    cols: u32,
    skeys: Seq<u64>,
    finalv: ValsView,
)
    requires
        eng.wf(),
        skeys.no_duplicates(),
        forall|i: int, j: int|
            0 <= i < skeys.len() && 0 <= j < skeys.len() && eng.edges().contains(
                (#[trigger] skeys[i], #[trigger] skeys[j]),
            ) ==> i < j,
        spec_replay(vals0, rows, cols, spec_fmapv(eng.fmap()), skeys) == Some(finalv),
    ensures
        forall|j: int|
            0 <= j < skeys.len() && eng.fmap().dom().contains(#[trigger] skeys[j])
                && finalv.dom().contains(spec_key_ref(skeys[j])) ==> Some(
                finalv[spec_key_ref(skeys[j])],
            ) == spec_cell_result(spec_eval(eng.fmap()[skeys[j]].ast@, finalv)),
{
    let fm = spec_fmapv(eng.fmap());
    assert forall|j: int, i: int, x: int|
        0 <= j < skeys.len() && j <= i < skeys.len() && fm.dom().contains(skeys[j]) && 0 <= x
            < spec_node_deps(fm[skeys[j]]).len() implies spec_key(
        #[trigger] spec_node_deps(fm[#[trigger] skeys[j]])[x],
    ) != #[trigger] skeys[i] by {
        assert(eng.fmap().dom().contains(skeys[j]));
        assert(fm[skeys[j]] == eng.fmap()[skeys[j]].ast@);
        assert(eng.fmap()[skeys[j]].dependencies@ == spec_node_deps(fm[skeys[j]]));
        let d = spec_key(spec_node_deps(fm[skeys[j]])[x]);
        if d == skeys[i] {
            assert(spec_dep_keys(eng.fmap()[skeys[j]]).contains(d)) by {
                assert(spec_key(eng.fmap()[skeys[j]].dependencies@[x]) == d);
            }
            assert(eng.edges().contains((d, skeys[j])));
            assert(eng.edges().contains((skeys[i], skeys[j])));
        }
    }
    lemma_replay_consistent(vals0, rows, cols, fm, skeys, finalv);
    assert forall|j: int|
        0 <= j < skeys.len() && eng.fmap().dom().contains(#[trigger] skeys[j])
            && finalv.dom().contains(spec_key_ref(skeys[j])) implies Some(
        finalv[spec_key_ref(skeys[j])],
    ) == spec_cell_result(spec_eval(eng.fmap()[skeys[j]].ast@, finalv)) by {
        assert(fm[skeys[j]] == eng.fmap()[skeys[j]].ast@);
    }
}


impl FormulaEngine {
    /// A copy of the stored formula for a cell, if one is registered.
    pub fn formula_duplicate(&self, cell: CellRef) -> (r: Option<Formula>)
        ensures
            (r is Some <==> self.fmap().dom().contains(spec_key(cell))),
            (r matches Some(f) ==> f.raw == self.fmap()[spec_key(cell)].raw && f.ast@
                == self.fmap()[spec_key(cell)].ast@ && f.dependencies@ == self.fmap()[spec_key(
                cell,
            )].dependencies@),
    {
        let k = cell_key(cell);
        match self.formulas.get(&k) {
            Some(f) => Some(f.duplicate()),
            None => None,
        }
    }
}

} // verus!
