//! Core of a spreadsheet calculation engine: cell values and references,
//! a formula parser and evaluator, a dependency graph, and incremental
//! recalculation in topological order.

pub mod cell;
pub mod colmap;
pub mod depgraph;
pub mod engine;
pub mod eval;
pub mod formula;
pub mod grid;
pub mod num;
pub mod sheet;
pub mod text;

pub use cell::{Cell, CellFormat, CellRef, CellValue, HorizontalAlign, VerticalAlign};
pub use engine::FormulaEngine;
pub use formula::{BinaryOp, Formula, FormulaError, FormulaNode, UnaryOp};
pub use grid::{CellData, CellUpdate, Grid, GridDiff, GridError, GridPatch};
pub use num::Num;
pub use sheet::SheetEngine;
