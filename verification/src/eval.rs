//! Formula evaluation: reduce an AST against the grid to a cell value.
//!
//! Arithmetic requires both operands to read as numbers; division by zero
//! is an error; comparisons on non-numbers are false, never errors; `&`
//! concatenates display strings.  A fixed-point overflow yields the error
//! value `#NUM` in the cell rather than a failed evaluation.

use vstd::prelude::*;
use vstd::string::StringExecFns;
use crate::cell::{
    Cell, CellFormat, CellRef, CellValue, ValueView, vv_display, vv_truthy, vv_to_number,
    lemma_value_view_agrees, lemma_value_eq_view, spec_value_eq,
};
use crate::formula::{FormulaNode, NodeView, BinaryOp, UnaryOp, FormulaError, spec_node_views};
use crate::grid::{Grid, ColumnsView, spec_cells_at};

verus! {

/// The values visible in a grid: each stored cell's value at its
/// reference.  Absent references read as the empty value.
pub type ValsView = Map<CellRef, ValueView>;

/// The value assignment of a grid's columns.
pub open spec fn spec_grid_vals(cm: ColumnsView) -> ValsView {
    Map::new(
        |r: CellRef| spec_cells_at(cm, r) is Some,
        |r: CellRef| spec_cells_at(cm, r)->Some_0.value@,
    )
}

} // verus!
use crate::num::{
    Num, SCALE, spec_num_add, spec_num_sub, spec_num_mul, spec_num_div, spec_num_neg,
    spec_num_abs, spec_num_pow, spec_num_round, spec_num_sqrt, spec_tdiv, spec_trem, opt_num,
    lemma_tdiv_magnitude,
};

verus! {

/// The kinds of evaluation error, stripped of their prose.
pub enum EvalErr {
    Type,
    DivZero,
    Unknown(Seq<char>),
    ArgCount(Seq<char>, nat),
}

/// The kind of an error value, where it has one.
pub open spec fn spec_err_kind(e: FormulaError) -> Option<EvalErr> {
    match e {
        FormulaError::TypeError { expected, got } => Some(EvalErr::Type),
        FormulaError::DivisionByZero => Some(EvalErr::DivZero),
        FormulaError::UnknownFunction(n) => Some(EvalErr::Unknown(n@)),
        FormulaError::ArgumentCount { func, expected, got } => Some(
            EvalErr::ArgCount(func@, got as nat),
        ),
        _ => None,
    }
}

/// The value visible at a reference: the stored value, or empty.
pub open spec fn spec_value_at(vals: ValsView, r: CellRef) -> ValueView {
    if vals.dom().contains(r) {
        vals[r]
    } else {
        ValueView::Empty
    }
}

/// Result of a binary operation on two evaluated operands.
pub open spec fn spec_eval_binop(op: BinaryOp, a: ValueView, b: ValueView) -> Result<
    ValueView,
    EvalErr,
> {
    let an = vv_to_number(a);
    let bn = vv_to_number(b);
    match op {
        BinaryOp::Add => spec_arith(an, bn, spec_num_add(an->Some_0, bn->Some_0)),
        BinaryOp::Sub => spec_arith(an, bn, spec_num_sub(an->Some_0, bn->Some_0)),
        BinaryOp::Mul => spec_arith(an, bn, spec_num_mul(an->Some_0, bn->Some_0)),
        BinaryOp::Div => if an is Some && bn is Some && bn->Some_0 == 0 {
            Err(EvalErr::DivZero)
        } else {
            spec_arith(an, bn, spec_num_div(an->Some_0, bn->Some_0))
        },
        BinaryOp::Pow => if an is Some && bn is Some {
            spec_pow_value(an->Some_0, bn->Some_0)
        } else {
            Err(EvalErr::Type)
        },
        BinaryOp::Eq => Ok(ValueView::Boolean(a == b)),
        BinaryOp::Ne => Ok(ValueView::Boolean(a != b)),
        BinaryOp::Lt => Ok(
            match (an, bn) {
                (Some(x), Some(y)) => ValueView::Boolean(x < y),
                _ => ValueView::Boolean(false),
            },
        ),
        BinaryOp::Le => Ok(
            match (an, bn) {
                (Some(x), Some(y)) => ValueView::Boolean(x <= y),
                _ => ValueView::Boolean(false),
            },
        ),
        BinaryOp::Gt => Ok(
            match (an, bn) {
                (Some(x), Some(y)) => ValueView::Boolean(x > y),
                _ => ValueView::Boolean(false),
            },
        ),
        BinaryOp::Ge => Ok(
            match (an, bn) {
                (Some(x), Some(y)) => ValueView::Boolean(x >= y),
                _ => ValueView::Boolean(false),
            },
        ),
        BinaryOp::Concat => Ok(ValueView::Text(vv_display(a) + vv_display(b))),
    }
}

/// An arithmetic step: a type error when an operand has no number, the
/// `#NUM` error value on mantissa overflow.
pub open spec fn spec_arith(an: Option<int>, bn: Option<int>, res: Option<int>) -> Result<
    ValueView,
    EvalErr,
> {
    if an is None || bn is None {
        Err(EvalErr::Type)
    } else {
        match res {
            Some(v) => Ok(ValueView::Number(v)),
            None => Ok(ValueView::Error("NUM"@)),
        }
    }
}

/// Exponentiation of two numbers: the exponent must be an integer; a
/// negative exponent inverts; zero to a negative power is `#DIV/0`.
pub open spec fn spec_pow_value(x: int, y: int) -> Result<ValueView, EvalErr> {
    if spec_trem(y, SCALE as int) != 0 {
        Ok(ValueView::Error("NUM"@))
    } else {
        let k = spec_tdiv(y, SCALE as int);
        if k >= 0 {
            match spec_num_pow(x, k as nat) {
                Some(v) => Ok(ValueView::Number(v)),
                None => Ok(ValueView::Error("NUM"@)),
            }
        } else {
            match spec_num_pow(x, (-k) as nat) {
                Some(p) => if p == 0 {
                    Ok(ValueView::Error("DIV/0"@))
                } else {
                    match spec_num_div(SCALE as int, p) {
                        Some(q) => Ok(ValueView::Number(q)),
                        None => Ok(ValueView::Error("NUM"@)),
                    }
                },
                None => Ok(ValueView::Error("NUM"@)),
            }
        }
    }
}

/// Result of a unary operation on an evaluated operand.
pub open spec fn spec_eval_unop(op: UnaryOp, a: ValueView) -> Result<ValueView, EvalErr> {
    match vv_to_number(a) {
        None => Err(EvalErr::Type),
        Some(x) => match op {
            UnaryOp::Neg => match spec_num_neg(x) {
                Some(v) => Ok(ValueView::Number(v)),
                None => Ok(ValueView::Error("NUM"@)),
            },
            UnaryOp::Percent => Ok(ValueView::Number(spec_tdiv(x, 100))),
        },
    }
}

/// Left-fold sum of collected mantissas; `None` on overflow.
pub open spec fn spec_sum(xs: Seq<int>) -> Option<int>
    decreases xs.len(),
{
    if xs.len() == 0 {
        Some(0)
    } else {
        match spec_sum(xs.drop_last()) {
            Some(a) => spec_num_add(a, xs.last()),
            None => None,
        }
    }
}

/// Left-fold minimum of a non-empty sequence.
pub open spec fn spec_seq_min(xs: Seq<int>) -> int
    decreases xs.len(),
{
    if xs.len() <= 1 {
        xs[0]
    } else {
        let m = spec_seq_min(xs.drop_last());
        if xs.last() < m {
            xs.last()
        } else {
            m
        }
    }
}

/// Left-fold maximum of a non-empty sequence.
pub open spec fn spec_seq_max(xs: Seq<int>) -> int
    decreases xs.len(),
{
    if xs.len() <= 1 {
        xs[0]
    } else {
        let m = spec_seq_max(xs.drop_last());
        if xs.last() > m {
            xs.last()
        } else {
            m
        }
    }
}

/// The numeric readings of the stored cells of one row segment.
pub open spec fn spec_row_nums(vals: ValsView, r: int, c0: int, c1: int) -> Seq<int>
    decreases c1 - c0 + 1,
{
    if c0 > c1 || r < 0 || c0 < 0 {
        Seq::empty()
    } else {
        (if vals.dom().contains(CellRef { row: r as u32, col: c0 as u32 }) {
            match vv_to_number(vals[CellRef { row: r as u32, col: c0 as u32 }]) {
                Some(x) => seq![x],
                None => Seq::<int>::empty(),
            }
        } else {
            Seq::<int>::empty()
        }) + spec_row_nums(vals, r, c0 + 1, c1)
    }
}

/// The numeric readings of the stored cells of a rectangle, row-major.
pub open spec fn spec_rect_nums(vals: ValsView, r0: int, c0: int, r1: int, c1: int) -> Seq<int>
    decreases r1 - r0 + 1,
{
    if r0 > r1 || r0 < 0 || c0 < 0 {
        Seq::empty()
    } else {
        spec_row_nums(vals, r0, c0, c1) + spec_rect_nums(vals, r0 + 1, c0, r1, c1)
    }
}

/// Evaluation of one AST node against the grid's cells.
pub open spec fn spec_eval(n: NodeView, vals: ValsView) -> Result<ValueView, EvalErr>
    decreases n, 0int,
{
    match n {
        NodeView::Number(m) => Ok(ValueView::Number(m)),
        NodeView::Text(s) => Ok(ValueView::Text(s)),
        NodeView::Boolean(b) => Ok(ValueView::Boolean(b)),
        NodeView::CellRef(c) => Ok(spec_value_at(vals, c)),
        NodeView::Range(_, _) => Err(EvalErr::Type),
        NodeView::BinaryOp(op, l, r) => match spec_eval(*l, vals) {
            Err(e) => Err(e),
            Ok(a) => match spec_eval(*r, vals) {
                Err(e) => Err(e),
                Ok(b) => spec_eval_binop(op, a, b),
            },
        },
        NodeView::UnaryOp(op, o) => match spec_eval(*o, vals) {
            Err(e) => Err(e),
            Ok(a) => spec_eval_unop(op, a),
        },
        NodeView::Function(name, args) => spec_apply_fun(name, args, vals),
    }
}

/// The numeric readings collected from an argument list: ranges
/// contribute their stored numeric cells; any other argument contributes
/// its value when it reads as a number, and nothing on errors.
pub open spec fn spec_collect_args(args: Seq<NodeView>, vals: ValsView) -> Seq<int>
    decreases args, 2int,
{
    if args.len() == 0 {
        Seq::empty()
    } else {
        spec_collect_args(args.subrange(0, args.len() - 1), vals) + spec_collect_one(
            args[args.len() - 1],
            vals,
        )
    }
}

/// The numeric readings one argument contributes.
pub open spec fn spec_collect_one(n: NodeView, vals: ValsView) -> Seq<int>
    decreases n, 1int,
{
    match n {
        NodeView::Range(s, e) => spec_rect_nums(
            vals,
            s.row as int,
            s.col as int,
            e.row as int,
            e.col as int,
        ),
        _ => match spec_eval(n, vals) {
            Ok(v) => match vv_to_number(v) {
                Some(x) => seq![x],
                None => Seq::<int>::empty(),
            },
            Err(_) => Seq::<int>::empty(),
        },
    }
}

/// Dispatch of the built-in functions by upper-cased name.
pub open spec fn spec_apply_fun(name: Seq<char>, args: Seq<NodeView>, vals: ValsView) -> Result<
    ValueView,
    EvalErr,
>
    decreases args, 3int,
{
    if name == "SUM"@ {
        match spec_sum(spec_collect_args(args, vals)) {
            Some(s) => Ok(ValueView::Number(s)),
            None => Ok(ValueView::Error("NUM"@)),
        }
    } else if name == "AVERAGE"@ || name == "AVG"@ {
        let xs = spec_collect_args(args, vals);
        if xs.len() == 0 {
            Ok(ValueView::Error("DIV/0"@))
        } else {
            match spec_sum(xs) {
                Some(s) => Ok(ValueView::Number(spec_tdiv(s, xs.len() as int))),
                None => Ok(ValueView::Error("NUM"@)),
            }
        }
    } else if name == "MIN"@ {
        let xs = spec_collect_args(args, vals);
        if xs.len() == 0 {
            Err(EvalErr::ArgCount("MIN"@, 0))
        } else {
            Ok(ValueView::Number(spec_seq_min(xs)))
        }
    } else if name == "MAX"@ {
        let xs = spec_collect_args(args, vals);
        if xs.len() == 0 {
            Err(EvalErr::ArgCount("MAX"@, 0))
        } else {
            Ok(ValueView::Number(spec_seq_max(xs)))
        }
    } else if name == "COUNT"@ {
        Ok(ValueView::Number(spec_collect_args(args, vals).len() * (SCALE as int)))
    } else if name == "IF"@ {
        if args.len() < 2 || args.len() > 3 {
            Err(EvalErr::ArgCount("IF"@, args.len()))
        } else {
            match spec_eval(args[0], vals) {
                Err(e) => Err(e),
                Ok(c) => if vv_truthy(c) {
                    spec_eval(args[1], vals)
                } else if args.len() > 2 {
                    spec_eval(args[2], vals)
                } else {
                    Ok(ValueView::Boolean(false))
                },
            }
        }
    } else if name == "ABS"@ {
        if args.len() != 1 {
            Err(EvalErr::ArgCount("ABS"@, args.len()))
        } else {
            match spec_eval(args[0], vals) {
                Err(e) => Err(e),
                Ok(v) => match vv_to_number(v) {
                    None => Err(EvalErr::Type),
                    Some(x) => match spec_num_abs(x) {
                        Some(a) => Ok(ValueView::Number(a)),
                        None => Ok(ValueView::Error("NUM"@)),
                    },
                },
            }
        }
    } else if name == "ROUND"@ {
        if args.len() == 0 || args.len() > 2 {
            Err(EvalErr::ArgCount("ROUND"@, args.len()))
        } else {
            match spec_eval(args[0], vals) {
                Err(e) => Err(e),
                Ok(v) => if args.len() > 1 {
                    match spec_eval(args[1], vals) {
                        Err(e) => Err(e),
                        Ok(dv) => spec_round_result(
                            v,
                            match vv_to_number(dv) {
                                Some(d) => spec_tdiv(d, SCALE as int),
                                None => 0,
                            },
                        ),
                    }
                } else {
                    spec_round_result(v, 0)
                },
            }
        }
    } else if name == "SQRT"@ {
        if args.len() != 1 {
            Err(EvalErr::ArgCount("SQRT"@, args.len()))
        } else {
            match spec_eval(args[0], vals) {
                Err(e) => Err(e),
                Ok(v) => match vv_to_number(v) {
                    None => Err(EvalErr::Type),
                    Some(x) => match spec_num_sqrt(x) {
                        Some(s) => Ok(ValueView::Number(s)),
                        None => Ok(ValueView::Error("NUM"@)),
                    },
                },
            }
        }
    } else if name == "POWER"@ || name == "POW"@ {
        if args.len() != 2 {
            Err(EvalErr::ArgCount("POWER"@, args.len()))
        } else {
            match spec_eval(args[0], vals) {
                Err(e) => Err(e),
                Ok(bv) => match spec_eval(args[1], vals) {
                    Err(e) => Err(e),
                    Ok(ev) => match (vv_to_number(bv), vv_to_number(ev)) {
                        (Some(x), Some(y)) => spec_pow_value(x, y),
                        _ => Err(EvalErr::Type),
                    },
                },
            }
        }
    } else {
        Err(EvalErr::Unknown(name))
    }
}

/// Rounding of an evaluated value to `d` places.
pub open spec fn spec_round_result(v: ValueView, d: int) -> Result<ValueView, EvalErr> {
    match vv_to_number(v) {
        None => Err(EvalErr::Type),
        Some(x) => match spec_num_round(x, d) {
            Some(r) => Ok(ValueView::Number(r)),
            None => Ok(ValueView::Error("NUM"@)),
        },
    }
}

/// A type error for a non-numeric operand.
fn type_error() -> (e: FormulaError)
    ensures
        spec_err_kind(e) == Some(EvalErr::Type),
{
    FormulaError::TypeError {
        expected: String::from_str("number"),
        got: String::from_str("non-numeric"),
    }
}

/// The `#NUM` error value for a fixed-point overflow.
fn num_error_value() -> (v: CellValue)
    ensures
        v@ == ValueView::Error("NUM"@),
{
    CellValue::Error(String::from_str("NUM"))
}

/// The `#DIV/0` error value.
fn div0_error_value() -> (v: CellValue)
    ensures
        v@ == ValueView::Error("DIV/0"@),
{
    CellValue::Error(String::from_str("DIV/0"))
}

/// Exponentiation of two numbers; always a value, never an error.
fn pow_value(x: Num, y: Num) -> (r: CellValue)
    ensures
        spec_pow_value(x@, y@) == Ok::<ValueView, EvalErr>(r@),
{
    let mag: u128 = if y.m < 0 {
        ((-(y.m + 1)) as u128) + 1
    } else {
        y.m as u128
    };
    proof {
        if y.m < 0 {
            assert(mag == -(y.m as int));
        }
    }
    if mag % 1_000_000_000u128 != 0 {
        proof {
            assert(spec_trem(y@, SCALE as int) != 0);
        }
        return num_error_value();
    }
    proof {
        assert(spec_trem(y@, SCALE as int) == 0);
    }
    let kq: u128 = mag / 1_000_000_000u128;
    proof {
        if y.m >= 0 {
            assert(spec_tdiv(y@, SCALE as int) == kq as int);
        } else {
            assert(spec_tdiv(y@, SCALE as int) == -(kq as int));
        }
    }
    if y.m >= 0 {
        match x.pow_nat(kq) {
            Some(v) => CellValue::Number(v),
            None => num_error_value(),
        }
    } else {
        if kq == 0 {
            // An integer exponent of magnitude zero is non-negative.
            proof {
                assert(spec_tdiv(y@, SCALE as int) == 0);
            }
            match x.pow_nat(0) {
                Some(v) => CellValue::Number(v),
                None => num_error_value(),
            }
        } else {
            match x.pow_nat(kq) {
                Some(p) => {
                    if p.is_zero() {
                        div0_error_value()
                    } else {
                        match Num::one().div(p) {
                            Some(q) => CellValue::Number(q),
                            None => num_error_value(),
                        }
                    }
                },
                None => num_error_value(),
            }
        }
    }
}

/// Apply a binary operator to two evaluated operands.
#[verifier::rlimit(100)]
fn evaluate_binary_op(op: BinaryOp, left: CellValue, right: CellValue) -> (r: Result<
    CellValue,
    FormulaError,
>)
    ensures
        (spec_eval_binop(op, left@, right@) matches Ok(vv) ==> (r matches Ok(v) && v@ == vv)),
        (spec_eval_binop(op, left@, right@) matches Err(k) ==> (r matches Err(e) && spec_err_kind(
            e,
        ) == Some(k))),
{
    proof {
        lemma_value_view_agrees(left);
        lemma_value_view_agrees(right);
        crate::cell::lemma_to_number_fits(left);
        crate::cell::lemma_to_number_fits(right);
    }
    let ln = left.to_number();
    let rn = right.to_number();
    match op {
        BinaryOp::Add => match (ln, rn) {
            (Some(a), Some(b)) => match a.add(b) {
                Some(v) => Ok(CellValue::Number(v)),
                None => Ok(num_error_value()),
            },
            _ => Err(type_error()),
        },
        BinaryOp::Sub => match (ln, rn) {
            (Some(a), Some(b)) => match a.sub(b) {
                Some(v) => Ok(CellValue::Number(v)),
                None => Ok(num_error_value()),
            },
            _ => Err(type_error()),
        },
        BinaryOp::Mul => match (ln, rn) {
            (Some(a), Some(b)) => match a.mul(b) {
                Some(v) => Ok(CellValue::Number(v)),
                None => Ok(num_error_value()),
            },
            _ => Err(type_error()),
        },
        BinaryOp::Div => match (ln, rn) {
            (Some(a), Some(b)) => {
                if b.is_zero() {
                    Err(FormulaError::DivisionByZero)
                } else {
                    match a.div(b) {
                        Some(v) => Ok(CellValue::Number(v)),
                        None => Ok(num_error_value()),
                    }
                }
            },
            _ => Err(type_error()),
        },
        BinaryOp::Pow => match (ln, rn) {
            (Some(a), Some(b)) => Ok(pow_value(a, b)),
            _ => Err(type_error()),
        },
        BinaryOp::Eq => {
            let eq = left.eq(&right);
            proof {
                lemma_value_eq_view(left, right);
            }
            Ok(CellValue::Boolean(eq))
        },
        BinaryOp::Ne => {
            let eq = left.eq(&right);
            proof {
                lemma_value_eq_view(left, right);
            }
            Ok(CellValue::Boolean(!eq))
        },
        BinaryOp::Lt => match (ln, rn) {
            (Some(a), Some(b)) => Ok(CellValue::Boolean(a.m < b.m)),
            _ => Ok(CellValue::Boolean(false)),
        },
        BinaryOp::Le => match (ln, rn) {
            (Some(a), Some(b)) => Ok(CellValue::Boolean(a.m <= b.m)),
            _ => Ok(CellValue::Boolean(false)),
        },
        BinaryOp::Gt => match (ln, rn) {
            (Some(a), Some(b)) => Ok(CellValue::Boolean(a.m > b.m)),
            _ => Ok(CellValue::Boolean(false)),
        },
        BinaryOp::Ge => match (ln, rn) {
            (Some(a), Some(b)) => Ok(CellValue::Boolean(a.m >= b.m)),
            _ => Ok(CellValue::Boolean(false)),
        },
        BinaryOp::Concat => {
            let mut s = left.display();
            let rs = right.display();
            s.append(rs.as_str());
            Ok(CellValue::Text(s))
        },
    }
}

/// Apply a unary operator to an evaluated operand.
fn evaluate_unary_op(op: UnaryOp, val: CellValue) -> (r: Result<CellValue, FormulaError>)
    ensures
        (spec_eval_unop(op, val@) matches Ok(vv) ==> (r matches Ok(v) && v@ == vv)),
        (spec_eval_unop(op, val@) matches Err(k) ==> (r matches Err(e) && spec_err_kind(e)
            == Some(k))),
{
    proof {
        lemma_value_view_agrees(val);
        crate::cell::lemma_to_number_fits(val);
    }
    match val.to_number() {
        None => Err(type_error()),
        Some(x) => match op {
            UnaryOp::Neg => match x.neg() {
                Some(v) => Ok(CellValue::Number(v)),
                None => Ok(num_error_value()),
            },
            UnaryOp::Percent => Ok(CellValue::Number(x.percent())),
        },
    }
}

/// A prefix of the fold that overflowed keeps the whole fold overflowed.
pub proof fn lemma_sum_tail_none(xs: Seq<int>, i: int)
    requires
        0 <= i <= xs.len(),
        spec_sum(xs.subrange(0, i)) is None,
    ensures
        spec_sum(xs) is None,
    decreases xs.len() - i,
{
    if i == xs.len() {
        assert(xs.subrange(0, i) =~= xs);
    } else {
        assert(xs.subrange(0, i + 1).drop_last() =~= xs.subrange(0, i));
        lemma_sum_tail_none(xs, i + 1);
    }
}

/// Evaluate a formula node against the grid.
pub fn evaluate(node: &FormulaNode, grid: &Grid) -> (r: Result<CellValue, FormulaError>)
    ensures
        (spec_eval(node@, spec_grid_vals(grid.cells())) matches Ok(vv) ==> (r matches Ok(v) && v@ == vv)),
        (spec_eval(node@, spec_grid_vals(grid.cells())) matches Err(k) ==> (r matches Err(e) && spec_err_kind(e)
            == Some(k))),
    decreases node, 0int,
{
    match node {
        FormulaNode::Number { value } => Ok(CellValue::Number(*value)),
        FormulaNode::Text { value } => Ok(CellValue::Text(value.clone())),
        FormulaNode::Boolean { value } => Ok(CellValue::Boolean(*value)),
        FormulaNode::CellRef { cell } => match grid.get_cell(*cell) {
            Some(c) => {
                proof {
                    assert(spec_grid_vals(grid.cells()).dom().contains(*cell));
                    assert(spec_grid_vals(grid.cells())[*cell] == c.value@);
                }
                Ok(c.value.duplicate())
            },
            None => {
                proof {
                    assert(!spec_grid_vals(grid.cells()).dom().contains(*cell));
                }
                Ok(CellValue::Empty)
            },
        },
        FormulaNode::Range { start, end } => Err(
            FormulaError::TypeError {
                expected: String::from_str("single value"),
                got: String::from_str("range"),
            },
        ),
        FormulaNode::BinaryOp { op, left, right } => {
            let lv = match evaluate(left, grid) {
                Ok(v) => v,
                Err(e) => {
                    return Err(e);
                },
            };
            let rv = match evaluate(right, grid) {
                Ok(v) => v,
                Err(e) => {
                    return Err(e);
                },
            };
            evaluate_binary_op(*op, lv, rv)
        },
        FormulaNode::UnaryOp { op, operand } => {
            let v = match evaluate(operand, grid) {
                Ok(v) => v,
                Err(e) => {
                    return Err(e);
                },
            };
            evaluate_unary_op(*op, v)
        },
        FormulaNode::Function { name, args } => evaluate_function(name, args, grid),
    }
}

/// The numeric readings of the stored cells of a rectangle, row-major.
fn collect_rect(start: CellRef, end: CellRef, grid: &Grid) -> (r: Vec<Num>)
    ensures
        r@.map_values(|n: Num| n@) == spec_rect_nums(
            spec_grid_vals(grid.cells()),
            start.row as int,
            start.col as int,
            end.row as int,
            end.col as int,
        ),
{
    let mut out: Vec<Num> = Vec::new();
    let ghost cm = spec_grid_vals(grid.cells());
    if start.row > end.row || start.col > end.col {
        proof {
            lemma_rect_nums_empty(cm, start.row as int, start.col as int, end.row as int,
                end.col as int);
            assert(out@.map_values(|n: Num| n@) =~= Seq::<int>::empty());
        }
        return out;
    }
    let mut row: u64 = start.row as u64;
    proof {
        assert(spec_rect_nums(cm, start.row as int, start.col as int, end.row as int,
            end.col as int) =~= out@.map_values(|n: Num| n@) + spec_rect_nums(
            cm,
            row as int,
            start.col as int,
            end.row as int,
            end.col as int,
        ));
    }
    while row <= end.row as u64
        invariant
            start.row as int <= row <= end.row as int + 1,
            start.col <= end.col,
            start.row <= end.row,
            cm == spec_grid_vals(grid.cells()),
            spec_rect_nums(cm, start.row as int, start.col as int, end.row as int,
                end.col as int) =~= out@.map_values(|n: Num| n@) + spec_rect_nums(
                cm,
                row as int,
                start.col as int,
                end.row as int,
                end.col as int,
            ),
        decreases end.row as int + 1 - row,
    {
        let mut col: u64 = start.col as u64;
        let ghost out_row = out@;
        proof {
            assert(out@.map_values(|n: Num| n@).subrange(
                out_row.map_values(|n: Num| n@).len() as int,
                out@.map_values(|n: Num| n@).len() as int,
            ) =~= Seq::<int>::empty());
        }
        while col <= end.col as u64
            invariant
                start.row as int <= row <= end.row as int,
                start.col as int <= col <= end.col as int + 1,
                cm == spec_grid_vals(grid.cells()),
                out_row.len() <= out@.len(),
                out@.subrange(0, out_row.len() as int) == out_row,
                spec_row_nums(cm, row as int, start.col as int, end.col as int)
                    =~= out@.map_values(|n: Num| n@).subrange(
                    out_row.len() as int,
                    out@.len() as int,
                ) + spec_row_nums(cm, row as int, col as int, end.col as int),
            decreases end.col as int + 1 - col,
        {
            let cr = CellRef { row: row as u32, col: col as u32 };
            let ghost before = out@;
            match grid.get_cell(cr) {
                Some(c) => {
                    proof {
                        lemma_value_view_agrees(c.value);
                        crate::cell::lemma_to_number_fits(c.value);
                        assert(cm.dom().contains(cr) && cm[cr] == c.value@);
                    }
                    match c.value.to_number() {
                        Some(x) => {
                            out.push(x);
                        },
                        None => {
                        },
                    }
                },
                None => {
                    proof {
                        assert(!cm.dom().contains(cr));
                    }
                },
            }
            proof {
                let cellnums = if cm.dom().contains(cr) {
                    match vv_to_number(cm[cr]) {
                        Some(x) => seq![x],
                        None => Seq::<int>::empty(),
                    }
                } else {
                    Seq::<int>::empty()
                };
                assert(out@.map_values(|n: Num| n@) =~= before.map_values(|n: Num| n@) + cellnums);
                assert(out@.subrange(0, out_row.len() as int) =~= out_row);
                assert(spec_row_nums(cm, row as int, col as int, end.col as int) == cellnums
                    + spec_row_nums(cm, row as int, col as int + 1, end.col as int));
                assert(out@.map_values(|n: Num| n@).subrange(
                    out_row.len() as int,
                    out@.len() as int,
                ) =~= before.map_values(|n: Num| n@).subrange(
                    out_row.len() as int,
                    before.len() as int,
                ) + cellnums);
                assert(out@.map_values(|n: Num| n@).subrange(
                    out_row.len() as int,
                    out@.len() as int,
                ) + spec_row_nums(cm, row as int, col as int + 1, end.col as int)
                    =~= before.map_values(|n: Num| n@).subrange(
                    out_row.len() as int,
                    before.len() as int,
                ) + spec_row_nums(cm, row as int, col as int, end.col as int));
            }
            col += 1;
        }
        proof {
            assert(spec_row_nums(cm, row as int, col as int, end.col as int)
                =~= Seq::<int>::empty());
            assert(spec_rect_nums(cm, row as int, start.col as int, end.row as int,
                end.col as int) == spec_row_nums(cm, row as int, start.col as int, end.col as int)
                + spec_rect_nums(cm, row as int + 1, start.col as int, end.row as int,
                end.col as int));
            assert(out_row.map_values(|n: Num| n@) + (out@.map_values(|n: Num| n@).subrange(
                out_row.len() as int,
                out@.len() as int,
            ) + spec_rect_nums(cm, row as int + 1, start.col as int, end.row as int,
                end.col as int)) =~= out@.map_values(|n: Num| n@) + spec_rect_nums(
                cm,
                row as int + 1,
                start.col as int,
                end.row as int,
                end.col as int,
            ));
            assert(out_row.map_values(|n: Num| n@) =~= out@.map_values(|n: Num| n@).subrange(
                0,
                out_row.len() as int,
            ));
        }
        row += 1;
    }
    proof {
        assert(spec_rect_nums(cm, row as int, start.col as int, end.row as int, end.col as int)
            =~= Seq::<int>::empty());
        assert(out@.map_values(|n: Num| n@) =~= out@.map_values(|n: Num| n@) + Seq::<int>::empty());
    }
    out
}

/// An inverted rectangle contributes nothing.
pub proof fn lemma_rect_nums_empty(cm: ValsView, r0: int, c0: int, r1: int, c1: int)
    requires
        r0 > r1 || c0 > c1,
    ensures
        spec_rect_nums(cm, r0, c0, r1, c1) == Seq::<int>::empty(),
    decreases r1 - r0 + 1,
{
    if !(r0 > r1 || r0 < 0 || c0 < 0) {
        lemma_rect_nums_empty(cm, r0 + 1, c0, r1, c1);
        assert(spec_row_nums(cm, r0, c0, c1) =~= Seq::<int>::empty());
        assert(spec_rect_nums(cm, r0, c0, r1, c1) =~= Seq::<int>::empty());
    }
}

/// Collect the numeric readings of an argument list.
fn collect_numbers(args: &Vec<FormulaNode>, grid: &Grid) -> (r: Vec<Num>)
    ensures
        r@.map_values(|n: Num| n@) == spec_collect_args(spec_node_views(args@), spec_grid_vals(grid.cells())),
    decreases args, 2int,
{
    let mut out: Vec<Num> = Vec::new();
    let n: usize = args.len();
    let ghost views = spec_node_views(args@);
    proof {
        crate::formula::lemma_node_views_index(args@);
        assert(views.subrange(0, 0) =~= Seq::<NodeView>::empty());
        assert(out@.map_values(|x: Num| x@) =~= Seq::<int>::empty());
    }
    let mut i: usize = 0;
    while i < n
        invariant
            n == args@.len(),
            views == spec_node_views(args@),
            views.len() == n,
            forall|j: int| 0 <= j < n ==> views[j] == crate::formula::spec_node_view(
                #[trigger] args@[j],
            ),
            0 <= i <= n,
            out@.map_values(|x: Num| x@) =~= spec_collect_args(
                views.subrange(0, i as int),
                spec_grid_vals(grid.cells()),
            ),
        decreases n - i,
    {
        let ghost before = out@;
        let arg = &args[i];
        proof {
            assert(decreases_to!(args => args@[i as int]));
        }
        match arg {
            FormulaNode::Range { start, end } => {
                let mut nums = collect_rect(*start, *end, grid);
                let ghost nv = nums@;
                out.append(&mut nums);
                proof {
                    assert(out@.map_values(|x: Num| x@) =~= before.map_values(|x: Num| x@)
                        + nv.map_values(|x: Num| x@));
                    assert(spec_collect_one(views[i as int], spec_grid_vals(grid.cells())) == nv.map_values(
                        |x: Num| x@,
                    ));
                }
            },
            _ => {
                match evaluate(arg, grid) {
                    Ok(v) => {
                        proof {
                            lemma_value_view_agrees(v);
                            crate::cell::lemma_to_number_fits(v);
                        }
                        match v.to_number() {
                            Some(x) => {
                                out.push(x);
                                proof {
                                    assert(out@.map_values(|y: Num| y@) =~= before.map_values(
                                        |y: Num| y@,
                                    ).push(x@));
                                }
                            },
                            None => {
                            },
                        }
                    },
                    Err(_) => {
                    },
                }
                proof {
                    let nv = views[i as int];
                    assert(!(nv is Range)) by {
                        match arg {
                            FormulaNode::Range { start, end } => {
                                assert(false);
                            },
                            _ => {
                            },
                        }
                    }
                }
            },
        }
        proof {
            assert(views.subrange(0, i + 1).subrange(0, i as int) =~= views.subrange(0, i as int));
            assert(views.subrange(0, i + 1)[i as int] == views[i as int]);
            assert(spec_collect_args(views.subrange(0, i + 1), spec_grid_vals(grid.cells()))
                == spec_collect_args(views.subrange(0, i as int), spec_grid_vals(grid.cells()))
                + spec_collect_one(views[i as int], spec_grid_vals(grid.cells())));
            assert(out@.map_values(|x: Num| x@) =~= spec_collect_args(
                views.subrange(0, i + 1),
                spec_grid_vals(grid.cells()),
            ));
        }
        i += 1;
    }
    proof {
        assert(views.subrange(0, n as int) =~= views);
    }
    out
}

/// Left-fold sum of the collected numbers; `None` on overflow.
fn sum_all(xs: &Vec<Num>) -> (r: Option<Num>)
    ensures
        r == opt_num(spec_sum(xs@.map_values(|n: Num| n@))),
{
    let ghost ms = xs@.map_values(|n: Num| n@);
    let mut acc: i128 = 0;
    let n: usize = xs.len();
    proof {
        assert(ms.subrange(0, 0) =~= Seq::<int>::empty());
    }
    let mut i: usize = 0;
    while i < n
        invariant
            n == xs@.len(),
            ms == xs@.map_values(|x: Num| x@),
            0 <= i <= n,
            spec_sum(ms.subrange(0, i as int)) == Some(acc as int),
        decreases n - i,
    {
        proof {
            assert(ms.subrange(0, i + 1).drop_last() =~= ms.subrange(0, i as int));
            assert(ms.subrange(0, i + 1).last() == ms[i as int]);
        }
        match acc.checked_add(xs[i].m) {
            Some(v) => {
                acc = v;
            },
            None => {
                proof {
                    lemma_sum_tail_none(ms, i + 1);
                }
                return None;
            },
        }
        i += 1;
    }
    proof {
        assert(ms.subrange(0, n as int) =~= ms);
    }
    Some(Num { m: acc })
}

/// Left-fold minimum of a non-empty collection.
fn min_all(xs: &Vec<Num>) -> (r: Num)
    requires
        xs@.len() > 0,
    ensures
        r@ == spec_seq_min(xs@.map_values(|n: Num| n@)),
{
    let ghost ms = xs@.map_values(|n: Num| n@);
    let mut acc: i128 = xs[0].m;
    let n: usize = xs.len();
    let mut i: usize = 1;
    proof {
        assert(ms.subrange(0, 1).len() == 1);
        assert(ms.subrange(0, 1)[0] == ms[0]);
    }
    while i < n
        invariant
            n == xs@.len(),
            ms == xs@.map_values(|x: Num| x@),
            1 <= i <= n,
            acc as int == spec_seq_min(ms.subrange(0, i as int)),
        decreases n - i,
    {
        proof {
            assert(ms.subrange(0, i + 1).drop_last() =~= ms.subrange(0, i as int));
            assert(ms.subrange(0, i + 1).last() == ms[i as int]);
        }
        if xs[i].m < acc {
            acc = xs[i].m;
        }
        i += 1;
    }
    proof {
        assert(ms.subrange(0, n as int) =~= ms);
    }
    Num { m: acc }
}

/// Left-fold maximum of a non-empty collection.
fn max_all(xs: &Vec<Num>) -> (r: Num)
    requires
        xs@.len() > 0,
    ensures
        r@ == spec_seq_max(xs@.map_values(|n: Num| n@)),
{
    let ghost ms = xs@.map_values(|n: Num| n@);
    let mut acc: i128 = xs[0].m;
    let n: usize = xs.len();
    let mut i: usize = 1;
    proof {
        assert(ms.subrange(0, 1).len() == 1);
        assert(ms.subrange(0, 1)[0] == ms[0]);
    }
    while i < n
        invariant
            n == xs@.len(),
            ms == xs@.map_values(|x: Num| x@),
            1 <= i <= n,
            acc as int == spec_seq_max(ms.subrange(0, i as int)),
        decreases n - i,
    {
        proof {
            assert(ms.subrange(0, i + 1).drop_last() =~= ms.subrange(0, i as int));
            assert(ms.subrange(0, i + 1).last() == ms[i as int]);
        }
        if xs[i].m > acc {
            acc = xs[i].m;
        }
        i += 1;
    }
    proof {
        assert(ms.subrange(0, n as int) =~= ms);
    }
    Num { m: acc }
}

/// An argument-count error for a named function.
fn arg_count_error(func: &str, expected: &str, got: usize) -> (e: FormulaError)
    ensures
        spec_err_kind(e) == Some(EvalErr::ArgCount(func@, got as nat)),
{
    FormulaError::ArgumentCount {
        func: func.to_owned(),
        expected: expected.to_owned(),
        got,
    }
}

/// Dispatch a built-in function by its upper-cased name.
#[verifier::rlimit(100)]
fn evaluate_function(name: &String, args: &Vec<FormulaNode>, grid: &Grid) -> (r: Result<
    CellValue,
    FormulaError,
>)
    ensures
        (spec_apply_fun(name@, spec_node_views(args@), spec_grid_vals(grid.cells())) matches Ok(vv) ==> (r
            matches Ok(v) && v@ == vv)),
        (spec_apply_fun(name@, spec_node_views(args@), spec_grid_vals(grid.cells())) matches Err(k) ==> (r
            matches Err(e) && spec_err_kind(e) == Some(k))),
    decreases args, 3int,
{
    let nm = crate::text::str_to_chars(name.as_str());
    let ghost views = spec_node_views(args@);
    proof {
        crate::formula::lemma_node_views_index(args@);
    }
    let argc: usize = args.len();
    if crate::text::chars_eq_str(&nm, "SUM") {
        let xs = collect_numbers(args, grid);
        proof {
            lemma_sum_fits(xs@.map_values(|n: Num| n@));
        }
        match sum_all(&xs) {
            Some(s) => Ok(CellValue::Number(s)),
            None => Ok(num_error_value()),
        }
    } else if crate::text::chars_eq_str(&nm, "AVERAGE") || crate::text::chars_eq_str(&nm, "AVG") {
        let xs = collect_numbers(&args, grid);
        if xs.len() == 0 {
            proof {
                assert(spec_collect_args(views, spec_grid_vals(grid.cells())).len() == 0);
            }
            Ok(div0_error_value())
        } else {
            proof {
                lemma_sum_fits(xs@.map_values(|n: Num| n@));
            }
            match sum_all(&xs) {
                Some(s) => {
                    let cnt: i128 = xs.len() as i128;
                    proof {
                        lemma_tdiv_magnitude(s@, cnt as int);
                    }
                    match s.m.checked_div(cnt) {
                        Some(q) => Ok(CellValue::Number(Num { m: q })),
                        None => {
                            proof {
                                assert(false);
                            }
                            Ok(num_error_value())
                        },
                    }
                },
                None => Ok(num_error_value()),
            }
        }
    } else if crate::text::chars_eq_str(&nm, "MIN") {
        let xs = collect_numbers(&args, grid);
        if xs.len() == 0 {
            Err(arg_count_error("MIN", "at least 1", 0))
        } else {
            Ok(CellValue::Number(min_all(&xs)))
        }
    } else if crate::text::chars_eq_str(&nm, "MAX") {
        let xs = collect_numbers(&args, grid);
        if xs.len() == 0 {
            Err(arg_count_error("MAX", "at least 1", 0))
        } else {
            Ok(CellValue::Number(max_all(&xs)))
        }
    } else if crate::text::chars_eq_str(&nm, "COUNT") {
        let xs = collect_numbers(&args, grid);
        let cnt: usize = xs.len();
        proof {
            assert((cnt as int) * (SCALE as int) < 0x80000000000000000000000000000000int)
                by (nonlinear_arith)
                requires 0 <= cnt as int <= 0xffff_ffff_ffff_ffffu64, SCALE == 1_000_000_000;
        }
        Ok(CellValue::Number(Num { m: (cnt as i128) * SCALE }))
    } else if crate::text::chars_eq_str(&nm, "IF") {
        if argc < 2 || argc > 3 {
            return Err(arg_count_error("IF", "2 or 3", argc));
        }
        proof {
            assert(decreases_to!(args => args@[0]));
        }
        let cond = match evaluate(&args[0], grid) {
            Ok(v) => v,
            Err(e) => {
                return Err(e);
            },
        };
        proof {
            lemma_value_view_agrees(cond);
        }
        if cond.is_truthy() {
            proof {
                assert(decreases_to!(args => args@[1]));
            }
            evaluate(&args[1], grid)
        } else if argc > 2 {
            proof {
                assert(decreases_to!(args => args@[2]));
            }
            evaluate(&args[2], grid)
        } else {
            Ok(CellValue::Boolean(false))
        }
    } else if crate::text::chars_eq_str(&nm, "ABS") {
        if argc != 1 {
            return Err(arg_count_error("ABS", "1", argc));
        }
        proof {
            assert(decreases_to!(args => args@[0]));
        }
        let v = match evaluate(&args[0], grid) {
            Ok(v) => v,
            Err(e) => {
                return Err(e);
            },
        };
        proof {
            lemma_value_view_agrees(v);
            crate::cell::lemma_to_number_fits(v);
        }
        match v.to_number() {
            None => Err(type_error()),
            Some(x) => match x.abs() {
                Some(a) => Ok(CellValue::Number(a)),
                None => Ok(num_error_value()),
            },
        }
    } else if crate::text::chars_eq_str(&nm, "ROUND") {
        if argc == 0 || argc > 2 {
            return Err(arg_count_error("ROUND", "1 or 2", argc));
        }
        proof {
            assert(decreases_to!(args => args@[0]));
        }
        let v = match evaluate(&args[0], grid) {
            Ok(v) => v,
            Err(e) => {
                return Err(e);
            },
        };
        let d: i128 = if argc > 1 {
            proof {
                assert(decreases_to!(args => args@[1]));
            }
            let dv = match evaluate(&args[1], grid) {
                Ok(v) => v,
                Err(e) => {
                    return Err(e);
                },
            };
            proof {
                lemma_value_view_agrees(dv);
                crate::cell::lemma_to_number_fits(dv);
            }
            match dv.to_number() {
                Some(x) => x.trunc_int(),
                None => 0,
            }
        } else {
            0
        };
        proof {
            lemma_value_view_agrees(v);
            crate::cell::lemma_to_number_fits(v);
        }
        match v.to_number() {
            None => Err(type_error()),
            Some(x) => match ({
                proof {
                    crate::num::lemma_round_fits(x@, d as int);
                }
                x.round_dp(d)
            }) {
                Some(rv) => Ok(CellValue::Number(rv)),
                None => Ok(num_error_value()),
            },
        }
    } else if crate::text::chars_eq_str(&nm, "SQRT") {
        if argc != 1 {
            return Err(arg_count_error("SQRT", "1", argc));
        }
        proof {
            assert(decreases_to!(args => args@[0]));
        }
        let v = match evaluate(&args[0], grid) {
            Ok(v) => v,
            Err(e) => {
                return Err(e);
            },
        };
        proof {
            lemma_value_view_agrees(v);
            crate::cell::lemma_to_number_fits(v);
        }
        match v.to_number() {
            None => Err(type_error()),
            Some(x) => match ({
                proof {
                    crate::num::lemma_sqrt_fits(x@);
                }
                x.sqrt()
            }) {
                Some(s) => Ok(CellValue::Number(s)),
                None => Ok(num_error_value()),
            },
        }
    } else if crate::text::chars_eq_str(&nm, "POWER") || crate::text::chars_eq_str(&nm, "POW") {
        if argc != 2 {
            return Err(arg_count_error("POWER", "2", argc));
        }
        proof {
            assert(decreases_to!(args => args@[0]));
        }
        let bv = match evaluate(&args[0], grid) {
            Ok(v) => v,
            Err(e) => {
                return Err(e);
            },
        };
        proof {
            assert(decreases_to!(args => args@[1]));
        }
        let ev = match evaluate(&args[1], grid) {
            Ok(v) => v,
            Err(e) => {
                return Err(e);
            },
        };
        proof {
            lemma_value_view_agrees(bv);
            lemma_value_view_agrees(ev);
            crate::cell::lemma_to_number_fits(bv);
            crate::cell::lemma_to_number_fits(ev);
        }
        match (bv.to_number(), ev.to_number()) {
            (Some(x), Some(y)) => Ok(pow_value(x, y)),
            _ => Err(type_error()),
        }
    } else {
        Err(FormulaError::UnknownFunction(name.clone()))
    }
}

/// A successful fold stays within the mantissa range.
pub proof fn lemma_sum_fits(xs: Seq<int>)
    ensures
        spec_sum(xs) is Some ==> crate::num::fits_i128(spec_sum(xs)->Some_0),
    decreases xs.len(),
{
    if xs.len() > 0 {
        lemma_sum_fits(xs.drop_last());
    }
}

/// Two value assignments agree at a reference: same presence, and the
/// same value when present.
pub open spec fn vals_agree_at(v1: ValsView, v2: ValsView, r: CellRef) -> bool {
    &&& v1.dom().contains(r) == v2.dom().contains(r)
    &&& (v1.dom().contains(r) ==> v1[r] == v2[r])
}

/// A reference of one row segment lies in the segment.
pub proof fn lemma_row_refs_member(r: int, c0: int, c1: int, c: int)
    requires
        0 <= r,
        0 <= c0 <= c <= c1,
    ensures
        crate::formula::spec_row_refs(r, c0, c1).contains(
            CellRef { row: r as u32, col: c as u32 },
        ),
    decreases c - c0,
{
    let s = crate::formula::spec_row_refs(r, c0, c1);
    if c == c0 {
        assert(s[0] == CellRef { row: r as u32, col: c as u32 });
    } else {
        lemma_row_refs_member(r, c0 + 1, c1, c);
        let t = crate::formula::spec_row_refs(r, c0 + 1, c1);
        let i = choose|i: int|
            0 <= i < t.len() && t[i] == CellRef { row: r as u32, col: c as u32 };
        assert(s[i + 1] == t[i]);
    }
}

/// A reference of a rectangle lies in the rectangle's reference list.
pub proof fn lemma_rect_refs_member(r0: int, c0: int, r1: int, c1: int, r: int, c: int)
    requires
        0 <= r0 <= r <= r1,
        0 <= c0 <= c <= c1,
    ensures
        crate::formula::spec_rect_refs(r0, c0, r1, c1).contains(
            CellRef { row: r as u32, col: c as u32 },
        ),
    decreases r - r0,
{
    let s = crate::formula::spec_rect_refs(r0, c0, r1, c1);
    let row0 = crate::formula::spec_row_refs(r0, c0, c1);
    if r == r0 {
        lemma_row_refs_member(r0, c0, c1, c);
        let i = choose|i: int|
            0 <= i < row0.len() && row0[i] == CellRef { row: r as u32, col: c as u32 };
        assert(s[i] == row0[i]);
    } else {
        lemma_rect_refs_member(r0 + 1, c0, r1, c1, r, c);
        let t = crate::formula::spec_rect_refs(r0 + 1, c0, r1, c1);
        let i = choose|i: int|
            0 <= i < t.len() && t[i] == CellRef { row: r as u32, col: c as u32 };
        assert(s[row0.len() + i] == t[i]);
    }
}

/// One row segment of numeric readings is unchanged between assignments
/// that agree on the segment's references.
pub proof fn lemma_row_nums_frame(v1: ValsView, v2: ValsView, r: int, c0: int, c1: int)
    requires
        forall|c: int|
            c0 <= c <= c1 && 0 <= r && 0 <= c0 ==> #[trigger] vals_agree_at(
                v1,
                v2,
                CellRef { row: r as u32, col: c as u32 },
            ),
    ensures
        spec_row_nums(v1, r, c0, c1) == spec_row_nums(v2, r, c0, c1),
    decreases c1 - c0 + 1,
{
    if !(c0 > c1 || r < 0 || c0 < 0) {
        assert(vals_agree_at(v1, v2, CellRef { row: r as u32, col: c0 as u32 }));
        lemma_row_nums_frame(v1, v2, r, c0 + 1, c1);
    }
}

/// A rectangle of numeric readings is unchanged between assignments
/// that agree on the rectangle's references.
pub proof fn lemma_rect_nums_frame(v1: ValsView, v2: ValsView, r0: int, c0: int, r1: int, c1: int)
    requires
        forall|r: int, c: int|
            r0 <= r <= r1 && c0 <= c <= c1 && 0 <= r0 && 0 <= c0 ==> #[trigger] vals_agree_at(
                v1,
                v2,
                CellRef { row: r as u32, col: c as u32 },
            ),
    ensures
        spec_rect_nums(v1, r0, c0, r1, c1) == spec_rect_nums(v2, r0, c0, r1, c1),
    decreases r1 - r0 + 1,
{
    if !(r0 > r1 || r0 < 0 || c0 < 0) {
        lemma_row_nums_frame(v1, v2, r0, c0, c1);
        lemma_rect_nums_frame(v1, v2, r0 + 1, c0, r1, c1);
    }
}

/// Every dependency of one argument is a dependency of the list.
pub proof fn lemma_args_deps_super(args: Seq<NodeView>, i: int, x: CellRef)
    requires
        0 <= i < args.len(),
        crate::formula::spec_node_deps(args[i]).contains(x),
    ensures
        crate::formula::spec_args_deps(args).contains(x),
    decreases args.len(),
{
    let pre = args.subrange(0, args.len() - 1);
    let last = args[args.len() - 1];
    if i == args.len() - 1 {
        let j = choose|j: int|
            0 <= j < crate::formula::spec_node_deps(last).len()
                && crate::formula::spec_node_deps(last)[j] == x;
        assert(crate::formula::spec_args_deps(args)[crate::formula::spec_args_deps(pre).len() + j]
            == x);
    } else {
        assert(pre[i] == args[i]);
        lemma_args_deps_super(pre, i, x);
        let j = choose|j: int|
            0 <= j < crate::formula::spec_args_deps(pre).len()
                && crate::formula::spec_args_deps(pre)[j] == x;
        assert(crate::formula::spec_args_deps(args)[j] == x);
    }
}

/// Evaluation reads only the node's dependencies: two assignments that
/// agree on them evaluate the node alike.
pub proof fn lemma_eval_frame(n: NodeView, v1: ValsView, v2: ValsView)
    requires
        forall|x: CellRef|
            crate::formula::spec_node_deps(n).contains(x) ==> vals_agree_at(v1, v2, x),
    ensures
        spec_eval(n, v1) == spec_eval(n, v2),
    decreases n, 0int,
{
    match n {
        NodeView::CellRef(c) => {
            assert(crate::formula::spec_node_deps(n)[0] == c);
            assert(vals_agree_at(v1, v2, c));
        },
        NodeView::BinaryOp(op, l, r) => {
            assert forall|x: CellRef|
                crate::formula::spec_node_deps(*l).contains(x) implies vals_agree_at(
                v1,
                v2,
                x,
            ) by {
                let j = choose|j: int|
                    0 <= j < crate::formula::spec_node_deps(*l).len()
                        && crate::formula::spec_node_deps(*l)[j] == x;
                assert(crate::formula::spec_node_deps(n)[j] == x);
            }
            assert forall|x: CellRef|
                crate::formula::spec_node_deps(*r).contains(x) implies vals_agree_at(
                v1,
                v2,
                x,
            ) by {
                let j = choose|j: int|
                    0 <= j < crate::formula::spec_node_deps(*r).len()
                        && crate::formula::spec_node_deps(*r)[j] == x;
                assert(crate::formula::spec_node_deps(n)[crate::formula::spec_node_deps(
                    *l,
                ).len() + j] == x);
            }
            lemma_eval_frame(*l, v1, v2);
            lemma_eval_frame(*r, v1, v2);
        },
        NodeView::UnaryOp(op, o) => {
            lemma_eval_frame(*o, v1, v2);
        },
        NodeView::Function(name, args) => {
            lemma_fun_frame(name, args, v1, v2);
        },
        _ => {
        },
    }
}

/// The function dispatcher reads only the arguments' dependencies.
pub proof fn lemma_fun_frame(name: Seq<char>, args: Seq<NodeView>, v1: ValsView, v2: ValsView)
    requires
        forall|x: CellRef|
            crate::formula::spec_args_deps(args).contains(x) ==> vals_agree_at(v1, v2, x),
    ensures
        spec_apply_fun(name, args, v1) == spec_apply_fun(name, args, v2),
    decreases args, 3int,
{
    lemma_collect_args_frame(args, v1, v2);
    assert forall|i: int| 0 <= i < args.len() implies spec_eval(#[trigger] args[i], v1)
        == spec_eval(args[i], v2) by {
        assert forall|x: CellRef|
            crate::formula::spec_node_deps(args[i]).contains(x) implies vals_agree_at(
            v1,
            v2,
            x,
        ) by {
            lemma_args_deps_super(args, i, x);
        }
        lemma_eval_frame(args[i], v1, v2);
    }
}

/// Collection reads only the arguments' dependencies.
pub proof fn lemma_collect_args_frame(args: Seq<NodeView>, v1: ValsView, v2: ValsView)
    requires
        forall|x: CellRef|
            crate::formula::spec_args_deps(args).contains(x) ==> vals_agree_at(v1, v2, x),
    ensures
        spec_collect_args(args, v1) == spec_collect_args(args, v2),
    decreases args, 2int,
{
    if args.len() > 0 {
        let pre = args.subrange(0, args.len() - 1);
        let last = args[args.len() - 1];
        assert forall|x: CellRef|
            crate::formula::spec_args_deps(pre).contains(x) implies vals_agree_at(v1, v2, x) by {
            let j = choose|j: int|
                0 <= j < crate::formula::spec_args_deps(pre).len()
                    && crate::formula::spec_args_deps(pre)[j] == x;
            assert(crate::formula::spec_args_deps(args)[j] == x);
        }
        assert forall|x: CellRef|
            crate::formula::spec_node_deps(last).contains(x) implies vals_agree_at(v1, v2, x) by {
            lemma_args_deps_super(args, args.len() - 1, x);
        }
        lemma_collect_args_frame(pre, v1, v2);
        lemma_collect_one_frame(last, v1, v2);
    }
}

/// One collected argument reads only its own dependencies.
pub proof fn lemma_collect_one_frame(n: NodeView, v1: ValsView, v2: ValsView)
    requires
        forall|x: CellRef|
            crate::formula::spec_node_deps(n).contains(x) ==> vals_agree_at(v1, v2, x),
    ensures
        spec_collect_one(n, v1) == spec_collect_one(n, v2),
    decreases n, 1int,
{
    match n {
        NodeView::Range(s, e) => {
            assert forall|r: int, c: int|
                s.row as int <= r <= e.row as int && s.col as int <= c <= e.col as int && 0
                    <= s.row as int && 0 <= s.col as int implies #[trigger] vals_agree_at(
                v1,
                v2,
                CellRef { row: r as u32, col: c as u32 },
            ) by {
                lemma_rect_refs_member(
                    s.row as int,
                    s.col as int,
                    e.row as int,
                    e.col as int,
                    r,
                    c,
                );
            }
            lemma_rect_nums_frame(
                v1,
                v2,
                s.row as int,
                s.col as int,
                e.row as int,
                e.col as int,
            );
        },
        _ => {
            lemma_eval_frame(n, v1, v2);
        },
    }
}

/// The value assignment after a plain-value write, per the sparse
/// store's rules: a non-empty value is (re)assigned; the empty value
/// clears the cell, removing it when no formula and no format remain.
pub open spec fn spec_vals_set_value(cm: ColumnsView, r: CellRef, vv: ValueView) -> ValsView {
    if vv is Empty {
        match spec_cells_at(cm, r) {
            Some(c) => if c.formula is None && c.format is None {
                spec_grid_vals(cm).remove(r)
            } else {
                spec_grid_vals(cm).insert(r, ValueView::Empty)
            },
            None => spec_grid_vals(cm),
        }
    } else {
        spec_grid_vals(cm).insert(r, vv)
    }
}

/// A whole-cell write reads back pointwise: every other reference is
/// untouched.
pub proof fn lemma_set_value_at(
    cm: ColumnsView,
    r: CellRef,
    value: CellValue,
    r2: CellRef,
    rows: u32,
    cols: u32,
)
    requires
        crate::grid::spec_cols_wf(cm, rows, cols),
        r2 != r,
    ensures
        spec_cells_at(crate::grid::spec_cells_set_value(cm, r, value), r2) == spec_cells_at(
            cm,
            r2,
        ),
{
    match value {
        CellValue::Empty => {
            match spec_cells_at(cm, r) {
                Some(c) => {
                    if c.formula is None && c.format is None {
                        crate::grid::lemma_cells_remove_at(cm, r, r2, rows, cols);
                    } else {
                        crate::grid::lemma_cells_put_at(
                            cm,
                            r,
                            Cell { value: CellValue::Empty, formula: c.formula, format: c.format },
                            r2,
                            rows,
                            cols,
                        );
                    }
                },
                None => {
                },
            }
        },
        _ => {
            crate::grid::lemma_cells_put_at(
                cm,
                r,
                Cell { value: value, formula: None, format: None },
                r2,
                rows,
                cols,
            );
        },
    }
}

/// The value assignment after a whole-cell put is the old one with the
/// put cell's value assigned.
pub proof fn lemma_put_vals(cm: ColumnsView, r: CellRef, cell: Cell, rows: u32, cols: u32)
    requires
        crate::grid::spec_cols_wf(cm, rows, cols),
    ensures
        spec_grid_vals(crate::grid::spec_cells_put(cm, r, cell)) == spec_grid_vals(cm).insert(
            r,
            cell.value@,
        ),
{
    let cm2 = crate::grid::spec_cells_put(cm, r, cell);
    assert forall|r2: CellRef|
        #[trigger] spec_cells_at(cm2, r2) == (if r2 == r {
            Some(cell)
        } else {
            spec_cells_at(cm, r2)
        }) by {
        crate::grid::lemma_cells_put_at(cm, r, cell, r2, rows, cols);
    }
    assert(spec_grid_vals(cm2) =~= spec_grid_vals(cm).insert(r, cell.value@));
}

/// The value assignment after a plain-value write matches the value-level
/// description.
pub proof fn lemma_set_value_vals(cm: ColumnsView, r: CellRef, value: CellValue, rows: u32, cols: u32)
    requires
        crate::grid::spec_cols_wf(cm, rows, cols),
    ensures
        spec_grid_vals(crate::grid::spec_cells_set_value(cm, r, value)) == spec_vals_set_value(
            cm,
            r,
            value@,
        ),
{
    let cm2 = crate::grid::spec_cells_set_value(cm, r, value);
    assert forall|r2: CellRef|
        r2 != r implies #[trigger] spec_cells_at(cm2, r2) == spec_cells_at(cm, r2) by {
        lemma_set_value_at(cm, r, value, r2, rows, cols);
    }
    match value {
        CellValue::Empty => {
            match spec_cells_at(cm, r) {
                Some(c) => {
                    if c.formula is None && c.format is None {
                        crate::grid::lemma_cells_remove_at(cm, r, r, rows, cols);
                        assert(spec_grid_vals(cm2) =~= spec_grid_vals(cm).remove(r));
                    } else {
                        crate::grid::lemma_cells_put_at(
                            cm,
                            r,
                            Cell { value: CellValue::Empty, formula: c.formula, format: c.format },
                            r,
                            rows,
                            cols,
                        );
                        assert(spec_grid_vals(cm2) =~= spec_grid_vals(cm).insert(
                            r,
                            ValueView::Empty,
                        ));
                    }
                },
                None => {
                    assert(spec_grid_vals(cm2) =~= spec_grid_vals(cm));
                },
            }
        },
        _ => {
            crate::grid::lemma_cells_put_at(
                cm,
                r,
                Cell { value: value, formula: None, format: None },
                r,
                rows,
                cols,
            );
            assert(spec_grid_vals(cm2) =~= spec_grid_vals(cm).insert(r, value@));
        },
    }
}

/// The attributes of a grid's stored cells: for each present cell, its
/// formula text (as characters) and its format.
pub type AttrsView = Map<CellRef, (Option<Seq<char>>, Option<CellFormat>)>;

/// The attribute assignment of a grid's columns.
pub open spec fn spec_grid_attrs(cm: ColumnsView) -> AttrsView {
    Map::new(
        |r: CellRef| spec_cells_at(cm, r) is Some,
        |r: CellRef|
            (
                crate::grid::spec_opt_str_view(spec_cells_at(cm, r)->Some_0.formula),
                spec_cells_at(cm, r)->Some_0.format,
            ),
    )
}

/// The attribute assignment after a whole-cell put.
pub proof fn lemma_put_attrs(cm: ColumnsView, r: CellRef, cell: Cell, rows: u32, cols: u32)
    requires
        crate::grid::spec_cols_wf(cm, rows, cols),
    ensures
        spec_grid_attrs(crate::grid::spec_cells_put(cm, r, cell)) == spec_grid_attrs(cm).insert(
            r,
            (crate::grid::spec_opt_str_view(cell.formula), cell.format),
        ),
{
    let cm2 = crate::grid::spec_cells_put(cm, r, cell);
    assert forall|r2: CellRef|
        #[trigger] spec_cells_at(cm2, r2) == (if r2 == r {
            Some(cell)
        } else {
            spec_cells_at(cm, r2)
        }) by {
        crate::grid::lemma_cells_put_at(cm, r, cell, r2, rows, cols);
    }
    assert(spec_grid_attrs(cm2) =~= spec_grid_attrs(cm).insert(
        r,
        (crate::grid::spec_opt_str_view(cell.formula), cell.format),
    ));
}

/// The attribute assignment after a plain-value write: a non-empty value
/// clears the attributes; the empty value removes an attribute-less cell
/// and otherwise keeps the attributes.
pub open spec fn spec_attrs_set_value(cm: ColumnsView, r: CellRef, vv: ValueView) -> AttrsView {
    if vv is Empty {
        match spec_cells_at(cm, r) {
            Some(c) => if c.formula is None && c.format is None {
                spec_grid_attrs(cm).remove(r)
            } else {
                spec_grid_attrs(cm)
            },
            None => spec_grid_attrs(cm),
        }
    } else {
        spec_grid_attrs(cm).insert(r, (None, None))
    }
}

/// The attribute assignment after a plain-value write matches its
/// description.
pub proof fn lemma_set_value_attrs(
    cm: ColumnsView,
    r: CellRef,
    value: CellValue,
    rows: u32,
    cols: u32,
)
    requires
        crate::grid::spec_cols_wf(cm, rows, cols),
    ensures
        spec_grid_attrs(crate::grid::spec_cells_set_value(cm, r, value)) == spec_attrs_set_value(
            cm,
            r,
            value@,
        ),
{
    let cm2 = crate::grid::spec_cells_set_value(cm, r, value);
    assert forall|r2: CellRef|
        r2 != r implies #[trigger] spec_cells_at(cm2, r2) == spec_cells_at(cm, r2) by {
        lemma_set_value_at(cm, r, value, r2, rows, cols);
    }
    match value {
        CellValue::Empty => {
            match spec_cells_at(cm, r) {
                Some(c) => {
                    if c.formula is None && c.format is None {
                        crate::grid::lemma_cells_remove_at(cm, r, r, rows, cols);
                        assert(spec_grid_attrs(cm2) =~= spec_grid_attrs(cm).remove(r));
                    } else {
                        crate::grid::lemma_cells_put_at(
                            cm,
                            r,
                            Cell { value: CellValue::Empty, formula: c.formula, format: c.format },
                            r,
                            rows,
                            cols,
                        );
                        assert(spec_grid_attrs(cm2) =~= spec_grid_attrs(cm));
                    }
                },
                None => {
                    assert(spec_grid_attrs(cm2) =~= spec_grid_attrs(cm));
                },
            }
        },
        _ => {
            crate::grid::lemma_cells_put_at(
                cm,
                r,
                Cell { value: value, formula: None, format: None },
                r,
                rows,
                cols,
            );
            assert(spec_grid_attrs(cm2) =~= spec_grid_attrs(cm).insert(r, (None, None)));
        },
    }
}

} // verus!
