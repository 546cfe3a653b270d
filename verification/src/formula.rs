//! Formula parsing: the AST, the dependency list, and a precedence parser.
//!
//! The parser scans each precedence level right to left at parenthesis
//! depth zero (additive, then multiplicative, then exponentiation), so
//! operators of equal precedence associate to the left; what remains is an
//! atom: a number, a boolean, a quoted string, a cell reference, a range,
//! a parenthesized subexpression or a function call.

use vstd::prelude::*;
use vstd::string::StringExecFns;
use crate::cell::{CellRef, spec_parse_ref};
use crate::text::{
    spec_trim, spec_is_ws, spec_upper_seq, lemma_trim_trimmed, trim_chars, to_upper_char,
    str_to_chars, chars_to_string, copy_range,
};
use crate::num::{Num, spec_parse_num, opt_num};

verus! {

/// Binary operators carried by the AST.
#[derive(Debug, Clone, Copy, PartialEq, Eq, Structural)]
pub enum BinaryOp {
    Add,
    Sub,
    Mul,
    Div,
    Pow,
    Eq,
    Ne,
    Lt,
    Le,
    Gt,
    Ge,
    Concat,
}

/// Unary operators carried by the AST.
#[derive(Debug, Clone, Copy, PartialEq, Eq, Structural)]
pub enum UnaryOp {
    Neg,
    Percent,
}

/// AST node for formula expressions.
#[derive(Debug)]
pub enum FormulaNode {
    Number { value: Num },
    Text { value: String },
    Boolean { value: bool },
    CellRef { cell: CellRef },
    Range { start: CellRef, end: CellRef },
    BinaryOp { op: BinaryOp, left: Box<FormulaNode>, right: Box<FormulaNode> },
    UnaryOp { op: UnaryOp, operand: Box<FormulaNode> },
    Function { name: String, args: Vec<FormulaNode> },
}

/// Mathematical model of an AST node: numbers as mantissas, text as
/// character sequences.
pub enum NodeView {
    Number(int),
    Text(Seq<char>),
    Boolean(bool),
    CellRef(CellRef),
    Range(CellRef, CellRef),
    BinaryOp(BinaryOp, Box<NodeView>, Box<NodeView>),
    UnaryOp(UnaryOp, Box<NodeView>),
    Function(Seq<char>, Seq<NodeView>),
}

/// The models of a sequence of AST nodes.
pub open spec fn spec_node_views(s: Seq<FormulaNode>) -> Seq<NodeView>
    decreases s,
{
    if s.len() == 0 {
        Seq::empty()
    } else {
        spec_node_views(s.subrange(0, s.len() - 1)).push(spec_node_view(s[s.len() - 1]))
    }
}

impl View for FormulaNode {
    type V = NodeView;

    open spec fn view(&self) -> NodeView {
        spec_node_view(*self)
    }
}

/// Mathematical model of one AST node.
pub open spec fn spec_node_view(n: FormulaNode) -> NodeView
    decreases n,
{
    {
        match n {
            FormulaNode::Number { value } => NodeView::Number(value@),
            FormulaNode::Text { value } => NodeView::Text(value@),
            FormulaNode::Boolean { value } => NodeView::Boolean(value),
            FormulaNode::CellRef { cell } => NodeView::CellRef(cell),
            FormulaNode::Range { start, end } => NodeView::Range(start, end),
            FormulaNode::BinaryOp { op, left, right } => NodeView::BinaryOp(
                op,
                Box::new(spec_node_view(*left)),
                Box::new(spec_node_view(*right)),
            ),
            FormulaNode::UnaryOp { op, operand } => NodeView::UnaryOp(
                op,
                Box::new(spec_node_view(*operand)),
            ),
            FormulaNode::Function { name, args } => NodeView::Function(
                name@,
                spec_node_views(args@),
            ),
        }
    }
}

/// Views of a node sequence index as the views of its elements.
pub proof fn lemma_node_views_index(s: Seq<FormulaNode>)
    ensures
        spec_node_views(s).len() == s.len(),
        forall|i: int| 0 <= i < s.len() ==> spec_node_views(s)[i] == spec_node_view(#[trigger] s[i]),
    decreases s.len(),
{
    if s.len() > 0 {
        lemma_node_views_index(s.subrange(0, s.len() - 1));
        assert forall|i: int| 0 <= i < s.len() implies spec_node_views(s)[i] == spec_node_view(
            #[trigger] s[i],
        ) by {
            if i < s.len() - 1 {
                assert(s.subrange(0, s.len() - 1)[i] == s[i]);
            }
        }
    }
}

/// The references a range covers, row-major, both corners inclusive;
/// empty when a corner is inverted.
pub open spec fn spec_rect_refs(r0: int, c0: int, r1: int, c1: int) -> Seq<CellRef>
    decreases r1 - r0 + 1,
{
    if r0 > r1 || r0 < 0 || c0 < 0 {
        Seq::empty()
    } else {
        spec_row_refs(r0, c0, c1) + spec_rect_refs(r0 + 1, c0, r1, c1)
    }
}

/// The references of one row from column `c0` to `c1`, inclusive.
pub open spec fn spec_row_refs(r: int, c0: int, c1: int) -> Seq<CellRef>
    decreases c1 - c0 + 1,
{
    if c0 > c1 || r < 0 || c0 < 0 {
        Seq::empty()
    } else {
        seq![CellRef { row: r as u32, col: c0 as u32 }] + spec_row_refs(r, c0 + 1, c1)
    }
}

/// The dependency list of a node: every cell reference under it, with
/// ranges expanded, in source order.
pub open spec fn spec_node_deps(n: NodeView) -> Seq<CellRef>
    decreases n,
{
    match n {
        NodeView::Number(_) => Seq::empty(),
        NodeView::Text(_) => Seq::empty(),
        NodeView::Boolean(_) => Seq::empty(),
        NodeView::CellRef(c) => seq![c],
        NodeView::Range(s, e) => spec_rect_refs(s.row as int, s.col as int, e.row as int, e.col as int),
        NodeView::BinaryOp(_, l, r) => spec_node_deps(*l) + spec_node_deps(*r),
        NodeView::UnaryOp(_, o) => spec_node_deps(*o),
        NodeView::Function(_, args) => spec_args_deps(args),
    }
}

/// The concatenated dependency lists of a node sequence.
pub open spec fn spec_args_deps(args: Seq<NodeView>) -> Seq<CellRef>
    decreases args,
{
    if args.len() == 0 {
        Seq::empty()
    } else {
        spec_args_deps(args.subrange(0, args.len() - 1)) + spec_node_deps(args[args.len() - 1])
    }
}

/// The operator found looking at scan position `i` of one level, as
/// (start index, length, operator).  The levels in decreasing scan
/// priority: comparisons, concatenation, additive, multiplicative,
/// exponentiation.  The two-character comparisons are recognised at
/// their second character.
pub open spec fn spec_op_at(t: Seq<char>, level: int, i: int) -> Option<(int, int, BinaryOp)>
    recommends
        0 <= i < t.len(),
{
    let c = t[i];
    if level == 0 {
        if c == '=' {
            if i >= 1 && t[i - 1] == '<' {
                Some((i - 1, 2int, BinaryOp::Le))
            } else if i >= 1 && t[i - 1] == '>' {
                Some((i - 1, 2int, BinaryOp::Ge))
            } else {
                Some((i, 1int, BinaryOp::Eq))
            }
        } else if c == '>' {
            if i >= 1 && t[i - 1] == '<' {
                Some((i - 1, 2int, BinaryOp::Ne))
            } else {
                Some((i, 1int, BinaryOp::Gt))
            }
        } else if c == '<' {
            Some((i, 1int, BinaryOp::Lt))
        } else {
            None
        }
    } else if level == 1 {
        if c == '&' {
            Some((i, 1int, BinaryOp::Concat))
        } else {
            None
        }
    } else if level == 2 {
        if c == '+' {
            Some((i, 1int, BinaryOp::Add))
        } else if c == '-' {
            Some((i, 1int, BinaryOp::Sub))
        } else {
            None
        }
    } else if level == 3 {
        if c == '*' {
            Some((i, 1int, BinaryOp::Mul))
        } else if c == '/' {
            Some((i, 1int, BinaryOp::Div))
        } else {
            None
        }
    } else {
        if c == '^' {
            Some((i, 1int, BinaryOp::Pow))
        } else {
            None
        }
    }
}

/// Whether an operator occurrence makes a valid split: not at the very
/// start, with non-blank text on both sides.
pub open spec fn spec_split_ok(t: Seq<char>, st: int, len: int) -> bool {
    st > 0 && spec_trim(t.subrange(0, st)).len() > 0 && spec_trim(
        t.subrange(st + len, t.len() as int),
    ).len() > 0
}

/// Scan right to left from position `i` at parenthesis depth `depth`,
/// looking for the split point of a binary level: the rightmost valid
/// operator of the level at depth zero.
pub open spec fn spec_find_split(t: Seq<char>, level: int, i: int, depth: int) -> Option<
    (int, int, BinaryOp),
>
    decreases i + 1,
{
    if i < 0 || i >= t.len() {
        None
    } else {
        let c = t[i];
        if c == ')' {
            spec_find_split(t, level, i - 1, depth + 1)
        } else if c == '(' {
            spec_find_split(t, level, i - 1, depth - 1)
        } else if depth == 0 && spec_op_at(t, level, i) is Some && spec_split_ok(
            t,
            spec_op_at(t, level, i)->Some_0.0,
            spec_op_at(t, level, i)->Some_0.1,
        ) {
            spec_op_at(t, level, i)
        } else {
            spec_find_split(t, level, i - 1, depth)
        }
    }
}

/// Index of the first colon in `s`, or `s.len()` when none occurs.
pub open spec fn spec_first_colon(s: Seq<char>) -> nat
    decreases s.len(),
{
    if s.len() == 0 {
        0
    } else if s[0] == ':' {
        0
    } else {
        1 + spec_first_colon(s.drop_first())
    }
}

/// Index of the first opening parenthesis, or `s.len()` when none occurs.
pub open spec fn spec_first_paren(s: Seq<char>) -> nat
    decreases s.len(),
{
    if s.len() == 0 {
        0
    } else if s[0] == '(' {
        0
    } else {
        1 + spec_first_paren(s.drop_first())
    }
}

/// What the expression parser produces, or `None` for a parse error.
/// The input is trimmed; an empty expression is the number zero; then the
/// three binary levels are tried, then the atoms.
pub open spec fn spec_parse_expr(s: Seq<char>) -> Option<NodeView>
    decreases s.len(), 2int,
{
    if spec_trim(s).len() < s.len() {
        spec_parse_expr(spec_trim(s))
    } else if s.len() == 0 {
        Some(NodeView::Number(0))
    } else if spec_find_split(s, 0, s.len() - 1, 0) is Some {
        spec_parse_split(s, spec_find_split(s, 0, s.len() - 1, 0)->Some_0)
    } else if spec_find_split(s, 1, s.len() - 1, 0) is Some {
        spec_parse_split(s, spec_find_split(s, 1, s.len() - 1, 0)->Some_0)
    } else if spec_find_split(s, 2, s.len() - 1, 0) is Some {
        spec_parse_split(s, spec_find_split(s, 2, s.len() - 1, 0)->Some_0)
    } else if spec_find_split(s, 3, s.len() - 1, 0) is Some {
        spec_parse_split(s, spec_find_split(s, 3, s.len() - 1, 0)->Some_0)
    } else if spec_find_split(s, 4, s.len() - 1, 0) is Some {
        spec_parse_split(s, spec_find_split(s, 4, s.len() - 1, 0)->Some_0)
    } else {
        spec_parse_atom(s)
    }
}

/// The node built from a found split point: both sides must parse.
pub open spec fn spec_parse_split(s: Seq<char>, sp: (int, int, BinaryOp)) -> Option<NodeView>
    decreases s.len(), 1int,
{
    let st = sp.0;
    let len = sp.1;
    if 0 < st && 0 < len && st + len <= s.len() {
        let l = spec_parse_expr(s.subrange(0, st));
        let r = spec_parse_expr(s.subrange(st + len, s.len() as int));
        if l is Some && r is Some {
            Some(NodeView::BinaryOp(sp.2, Box::new(l->Some_0), Box::new(r->Some_0)))
        } else {
            None
        }
    } else {
        None
    }
}

/// Atom forms, tried in order on a trimmed, non-empty expression with no
/// binary split: number, boolean, quoted string, cell reference, range,
/// parenthesized subexpression, function call.
pub open spec fn spec_parse_atom(s: Seq<char>) -> Option<NodeView>
    decreases s.len(), 0int,
{
    if spec_parse_num(s) is Some {
        Some(NodeView::Number(spec_parse_num(s)->Some_0))
    } else if spec_upper_seq(s) == seq!['T', 'R', 'U', 'E'] {
        Some(NodeView::Boolean(true))
    } else if spec_upper_seq(s) == seq!['F', 'A', 'L', 'S', 'E'] {
        Some(NodeView::Boolean(false))
    } else if s.len() >= 2 && ((s[0] == '"' && s.last() == '"') || (s[0] == '\'' && s.last()
        == '\'')) {
        Some(NodeView::Text(s.subrange(1, s.len() - 1)))
    } else if spec_parse_ref(s) is Some {
        Some(NodeView::CellRef(spec_parse_ref(s)->Some_0))
    } else if spec_first_colon(s) < s.len() && spec_parse_ref(
        s.subrange(0, spec_first_colon(s) as int),
    ) is Some && spec_parse_ref(
        s.subrange(spec_first_colon(s) as int + 1, s.len() as int),
    ) is Some {
        Some(
            NodeView::Range(
                spec_parse_ref(s.subrange(0, spec_first_colon(s) as int))->Some_0,
                spec_parse_ref(s.subrange(spec_first_colon(s) as int + 1, s.len() as int))->Some_0,
            ),
        )
    } else if s.len() >= 2 && s[0] == '(' && s.last() == ')' {
        spec_parse_expr(s.subrange(1, s.len() - 1))
    } else if s.last() == ')' && spec_first_paren(s) < s.len() {
        let p = spec_first_paren(s) as int;
        if p < s.len() - 1 {
            match spec_parse_args(s.subrange(p + 1, s.len() - 1)) {
                Some(args) => Some(
                    NodeView::Function(spec_upper_seq(spec_trim(s.subrange(0, p))), args),
                ),
                None => None,
            }
        } else {
            None
        }
    } else {
        None
    }
}

/// Function arguments: split on commas at parenthesis depth zero; a blank
/// argument list is empty; a blank trailing piece is dropped.
pub open spec fn spec_parse_args(a: Seq<char>) -> Option<Seq<NodeView>>
    decreases a.len(), 4int,
{
    if spec_trim(a).len() == 0 {
        Some(Seq::empty())
    } else {
        spec_parse_args_go(a)
    }
}

/// Index of the first comma at parenthesis depth zero, or `a.len()`.
pub open spec fn spec_first_arg_comma(a: Seq<char>, i: int, depth: int) -> nat
    decreases a.len() - i,
{
    if i < 0 || i >= a.len() {
        a.len()
    } else if a[i] == '(' {
        spec_first_arg_comma(a, i + 1, depth + 1)
    } else if a[i] == ')' {
        spec_first_arg_comma(a, i + 1, depth - 1)
    } else if a[i] == ',' && depth == 0 {
        i as nat
    } else {
        spec_first_arg_comma(a, i + 1, depth)
    }
}

/// The argument pieces of a non-blank argument text.
pub open spec fn spec_parse_args_go(a: Seq<char>) -> Option<Seq<NodeView>>
    decreases a.len(), 3int,
    via check_parse_args_go_decreases
{
    let j = spec_first_arg_comma(a, 0, 0) as int;
    if j == a.len() {
        if spec_trim(a).len() == 0 {
            Some(Seq::empty())
        } else {
            match spec_parse_expr(a) {
                Some(n) => Some(seq![n]),
                None => None,
            }
        }
    } else {
        let piece = spec_parse_expr(a.subrange(0, j));
        let rest = spec_parse_args_go(a.subrange(j + 1, a.len() as int));
        if piece is Some && rest is Some {
            Some(seq![piece->Some_0] + rest->Some_0)
        } else {
            None
        }
    }
}

/// The first depth-zero comma lies between the scan start and the end.
pub proof fn lemma_first_arg_comma_bounds(a: Seq<char>, i: int, depth: int)
    requires
        0 <= i,
    ensures
        spec_first_arg_comma(a, i, depth) <= a.len(),
        i <= a.len() ==> i <= spec_first_arg_comma(a, i, depth),
    decreases a.len() - i,
{
    if i < a.len() {
        if a[i] == '(' {
            lemma_first_arg_comma_bounds(a, i + 1, depth + 1);
        } else if a[i] == ')' {
            lemma_first_arg_comma_bounds(a, i + 1, depth - 1);
        } else if a[i] == ',' && depth == 0 {
        } else {
            lemma_first_arg_comma_bounds(a, i + 1, depth);
        }
    }
}

#[via_fn]
proof fn check_parse_args_go_decreases(a: Seq<char>) {
    lemma_first_arg_comma_bounds(a, 0, 0);
}

/// Errors from parsing, evaluation and recalculation.
#[derive(Debug)]
pub enum FormulaError {
    Parse(String),
    CircularReference,
    InvalidRef(String),
    DivisionByZero,
    TypeError { expected: String, got: String },
    UnknownFunction(String),
    ArgumentCount { func: String, expected: String, got: usize },
    Grid(String),
}

/// A parsed formula: the original text, the AST, and every cell the AST
/// reads (ranges expanded, in source order).
#[derive(Debug)]
pub struct Formula {
    pub raw: String,
    pub ast: FormulaNode,
    pub dependencies: Vec<CellRef>,
}

/// A trimmed sequence is non-blank exactly when some character is not
/// whitespace.
pub proof fn lemma_trim_nonempty_iff(s: Seq<char>)
    ensures
        spec_trim(s).len() > 0 <==> exists|i: int|
            0 <= i < s.len() && !spec_is_ws(#[trigger] s[i]),
{
    crate::text::lemma_ws_prefix_le_len(s);
    crate::text::lemma_ws_suffix_le_len(s);
    let front = crate::text::spec_ws_prefix_len(s) as int;
    let back = crate::text::spec_ws_suffix_len(s) as int;
    if spec_trim(s).len() > 0 {
        assert(front < s.len());
        assert(!spec_is_ws(s[front]));
    }
    if exists|i: int| 0 <= i < s.len() && !spec_is_ws(#[trigger] s[i]) {
        let i = choose|i: int| 0 <= i < s.len() && !spec_is_ws(#[trigger] s[i]);
        assert(front <= i);
        assert(s.len() - back > i);
        assert(spec_trim(s).len() > 0);
    }
}

/// The first colon is exactly at the end of the first colon-free run.
pub proof fn lemma_first_colon_is_first(s: Seq<char>, k: int)
    requires
        0 <= k <= s.len(),
        forall|i: int| 0 <= i < k ==> (#[trigger] s[i]) != ':',
        k < s.len() ==> s[k] == ':',
    ensures
        spec_first_colon(s) == k,
    decreases s.len(),
{
    if s.len() > 0 && s[0] != ':' {
        let t = s.drop_first();
        assert forall|i: int| 0 <= i < k - 1 implies (#[trigger] t[i]) != ':' by {
            assert(t[i] == s[i + 1]);
        }
        if k - 1 < t.len() {
            assert(t[k - 1] == s[k]);
        }
        lemma_first_colon_is_first(t, k - 1);
    }
}

/// The first opening parenthesis is exactly at the end of the first
/// paren-free run.
pub proof fn lemma_first_paren_is_first(s: Seq<char>, k: int)
    requires
        0 <= k <= s.len(),
        forall|i: int| 0 <= i < k ==> (#[trigger] s[i]) != '(',
        k < s.len() ==> s[k] == '(',
    ensures
        spec_first_paren(s) == k,
    decreases s.len(),
{
    if s.len() > 0 && s[0] != '(' {
        let t = s.drop_first();
        assert forall|i: int| 0 <= i < k - 1 implies (#[trigger] t[i]) != '(' by {
            assert(t[i] == s[i + 1]);
        }
        if k - 1 < t.len() {
            assert(t[k - 1] == s[k]);
        }
        lemma_first_paren_is_first(t, k - 1);
    }
}

/// Dependency lists concatenate over a leading argument.
pub proof fn lemma_args_deps_cons(x: NodeView, ys: Seq<NodeView>)
    ensures
        spec_args_deps(seq![x] + ys) == spec_node_deps(x) + spec_args_deps(ys),
    decreases ys.len(),
{
    let s = seq![x] + ys;
    if ys.len() == 0 {
        assert(s.len() == 1);
        assert(s.subrange(0, s.len() - 1) =~= Seq::<NodeView>::empty());
        assert(s[0] == x);
        assert(spec_args_deps(Seq::<NodeView>::empty()) =~= Seq::<CellRef>::empty());
        assert(spec_args_deps(s) == spec_args_deps(s.subrange(0, s.len() - 1)) + spec_node_deps(
            s[s.len() - 1],
        ));
        assert(spec_args_deps(s) =~= spec_node_deps(x));
        assert(spec_node_deps(x) + spec_args_deps(ys) =~= spec_node_deps(x));
    } else {
        let yd = ys.subrange(0, ys.len() - 1);
        assert(s.subrange(0, s.len() - 1) =~= seq![x] + yd);
        assert(s[s.len() - 1] == ys[ys.len() - 1]);
        lemma_args_deps_cons(x, yd);
        assert(spec_args_deps(s) == (spec_node_deps(x) + spec_args_deps(yd)) + spec_node_deps(
            ys[ys.len() - 1],
        ));
        assert((spec_node_deps(x) + spec_args_deps(yd)) + spec_node_deps(ys[ys.len() - 1])
            =~= spec_node_deps(x) + spec_args_deps(ys));
    }
}

/// Whether some character in the index range `[from, to)` is not
/// whitespace.
fn has_nonws(v: &Vec<char>, from: usize, to: usize) -> (r: bool)
    requires
        from <= to <= v@.len(),
    ensures
        r == exists|i: int| from <= i < to && !spec_is_ws(#[trigger] v@[i]),
{
    let mut i: usize = from;
    while i < to
        invariant
            from <= i <= to <= v@.len(),
            forall|j: int| from <= j < i ==> spec_is_ws(#[trigger] v@[j]),
        decreases to - i,
    {
        if !crate::text::is_ws_char(v[i]) {
            return true;
        }
        i += 1;
    }
    false
}

/// The executable side of `spec_op_at`.
fn op_at(e: &Vec<char>, level: u8, i: usize) -> (r: Option<(usize, usize, BinaryOp)>)
    requires
        i < e@.len(),
    ensures
        (r matches Some(sp) ==> spec_op_at(e@, level as int, i as int) == Some(
            (sp.0 as int, sp.1 as int, sp.2),
        ) && sp.0 + sp.1 <= i + 1 && sp.1 >= 1),
        (r is None ==> spec_op_at(e@, level as int, i as int) is None),
{
    let c = e[i];
    if level == 0 {
        if c == '=' {
            if i >= 1 && e[i - 1] == '<' {
                Some((i - 1, 2, BinaryOp::Le))
            } else if i >= 1 && e[i - 1] == '>' {
                Some((i - 1, 2, BinaryOp::Ge))
            } else {
                Some((i, 1, BinaryOp::Eq))
            }
        } else if c == '>' {
            if i >= 1 && e[i - 1] == '<' {
                Some((i - 1, 2, BinaryOp::Ne))
            } else {
                Some((i, 1, BinaryOp::Gt))
            }
        } else if c == '<' {
            Some((i, 1, BinaryOp::Lt))
        } else {
            None
        }
    } else if level == 1 {
        if c == '&' {
            Some((i, 1, BinaryOp::Concat))
        } else {
            None
        }
    } else if level == 2 {
        if c == '+' {
            Some((i, 1, BinaryOp::Add))
        } else if c == '-' {
            Some((i, 1, BinaryOp::Sub))
        } else {
            None
        }
    } else if level == 3 {
        if c == '*' {
            Some((i, 1, BinaryOp::Mul))
        } else if c == '/' {
            Some((i, 1, BinaryOp::Div))
        } else {
            None
        }
    } else {
        if c == '^' {
            Some((i, 1, BinaryOp::Pow))
        } else {
            None
        }
    }
}

/// Find the split point of one binary level by the right-to-left scan.
fn find_split(e: &Vec<char>, level: u8) -> (r: Option<(usize, usize, BinaryOp)>)
    requires
        e@.len() >= 1,
    ensures
        (r matches Some(sp) ==> spec_find_split(e@, level as int, e@.len() - 1, 0) == Some(
            (sp.0 as int, sp.1 as int, sp.2),
        ) && 0 < sp.0 && sp.1 >= 1 && sp.0 + sp.1 <= e@.len()),
        (r is None ==> spec_find_split(e@, level as int, e@.len() - 1, 0) is None),
{
    let n: usize = e.len();
    let mut i: usize = n;
    let mut depth: i128 = 0;
    while i > 0
        invariant
            i <= n,
            n == e@.len(),
            -((n - i) as int) <= depth <= (n - i) as int,
            spec_find_split(e@, level as int, n - 1, 0) == spec_find_split(
                e@,
                level as int,
                i - 1,
                depth as int,
            ),
        decreases i,
    {
        i -= 1;
        let c = e[i];
        if c == ')' {
            depth += 1;
        } else if c == '(' {
            depth -= 1;
        } else if depth == 0 {
            match op_at(e, level, i) {
                Some((st, len, op)) => {
                    if st > 0 {
                        let left_ok = has_nonws(e, 0, st);
                        let right_ok = has_nonws(e, st + len, n);
                        proof {
                            lemma_trim_nonempty_iff(e@.subrange(0, st as int));
                            lemma_trim_nonempty_iff(e@.subrange(st + len, n as int));
                        }
                        if left_ok && right_ok {
                            proof {
                                let lsub = e@.subrange(0, st as int);
                                let rsub = e@.subrange(st + len, n as int);
                                let lj = choose|j: int|
                                    0 <= j < st && !spec_is_ws(#[trigger] e@[j]);
                                assert(lsub[lj] == e@[lj]);
                                assert(spec_trim(lsub).len() > 0);
                                let rj = choose|j: int|
                                    st + len <= j < n && !spec_is_ws(#[trigger] e@[j]);
                                assert(rsub[rj - (st + len)] == e@[rj]);
                                assert(spec_trim(rsub).len() > 0);
                                assert(spec_split_ok(e@, st as int, len as int));
                                assert(spec_find_split(e@, level as int, i as int, depth as int)
                                    == spec_op_at(e@, level as int, i as int));
                            }
                            return Some((st, len, op));
                        }
                        proof {
                            let lsub = e@.subrange(0, st as int);
                            let rsub = e@.subrange(st + len, n as int);
                            if spec_trim(lsub).len() > 0 && spec_trim(rsub).len() > 0 {
                                let lj = choose|j: int|
                                    0 <= j < lsub.len() && !spec_is_ws(#[trigger] lsub[j]);
                                assert(e@[lj] == lsub[lj]);
                                let rj = choose|j: int|
                                    0 <= j < rsub.len() && !spec_is_ws(#[trigger] rsub[j]);
                                assert(e@[rj + st + len] == rsub[rj]);
                                assert(false);
                            }
                        }
                    }
                },
                None => {
                },
            }
        }
    }
    proof {
        assert(spec_find_split(e@, level as int, -1, depth as int) is None);
    }
    None
}

/// The references of a rectangle, row-major, both corners inclusive.
fn rect_deps(start: CellRef, end: CellRef) -> (r: Vec<CellRef>)
    ensures
        r@ == spec_rect_refs(start.row as int, start.col as int, end.row as int, end.col as int),
{
    let mut out: Vec<CellRef> = Vec::new();
    if start.row > end.row || start.col > end.col {
        proof {
            lemma_rect_refs_empty(start.row as int, start.col as int, end.row as int,
                end.col as int);
        }
        return out;
    }
    let mut row: u64 = start.row as u64;
    proof {
        assert(spec_rect_refs(start.row as int, start.col as int, end.row as int, end.col as int)
            =~= out@ + spec_rect_refs(row as int, start.col as int, end.row as int, end.col as int));
    }
    while row <= end.row as u64
        invariant
            start.row as int <= row <= end.row as int + 1,
            start.col <= end.col,
            start.row <= end.row,
            spec_rect_refs(start.row as int, start.col as int, end.row as int, end.col as int)
                =~= out@ + spec_rect_refs(row as int, start.col as int, end.row as int, end.col as int),
        decreases end.row as int + 1 - row,
    {
        let ghost out_row_start = out@;
        let mut col: u64 = start.col as u64;
        proof {
            assert(out@.subrange(out_row_start.len() as int, out@.len() as int)
                =~= Seq::<CellRef>::empty());
        }
        while col <= end.col as u64
            invariant
                start.row as int <= row <= end.row as int,
                start.col as int <= col <= end.col as int + 1,
                out_row_start.len() <= out@.len(),
                out@.subrange(0, out_row_start.len() as int) == out_row_start,
                spec_row_refs(row as int, start.col as int, end.col as int) =~= out@.subrange(
                    out_row_start.len() as int,
                    out@.len() as int,
                ) + spec_row_refs(row as int, col as int, end.col as int),
            decreases end.col as int + 1 - col,
        {
            let c = CellRef { row: row as u32, col: col as u32 };
            proof {
                let ghost done = out@.subrange(out_row_start.len() as int, out@.len() as int);
                assert(spec_row_refs(row as int, col as int, end.col as int) == seq![c]
                    + spec_row_refs(row as int, col as int + 1, end.col as int));
                assert(out@.push(c).subrange(out_row_start.len() as int, out@.len() as int + 1)
                    =~= done.push(c));
                assert(out@.push(c).subrange(0, out_row_start.len() as int) =~= out_row_start);
                assert((done + (seq![c] + spec_row_refs(row as int, col as int + 1, end.col as int)))
                    =~= (done.push(c) + spec_row_refs(row as int, col as int + 1, end.col as int)));
            }
            out.push(c);
            col += 1;
        }
        proof {
            assert(spec_row_refs(row as int, col as int, end.col as int)
                =~= Seq::<CellRef>::empty());
            assert(spec_row_refs(row as int, start.col as int, end.col as int) =~= out@.subrange(
                out_row_start.len() as int,
                out@.len() as int,
            ));
            assert(spec_rect_refs(row as int, start.col as int, end.row as int, end.col as int)
                == spec_row_refs(row as int, start.col as int, end.col as int) + spec_rect_refs(
                row as int + 1,
                start.col as int,
                end.row as int,
                end.col as int,
            ));
            assert(out_row_start + (spec_row_refs(row as int, start.col as int, end.col as int)
                + spec_rect_refs(row as int + 1, start.col as int, end.row as int, end.col as int))
                =~= out@ + spec_rect_refs(row as int + 1, start.col as int, end.row as int,
                end.col as int));
        }
        row += 1;
    }
    proof {
        assert(spec_rect_refs(row as int, start.col as int, end.row as int, end.col as int)
            =~= Seq::<CellRef>::empty());
        assert(spec_rect_refs(start.row as int, start.col as int, end.row as int, end.col as int)
            =~= out@);
    }
    out
}

/// A parse error naming the text that did not parse.
fn parse_error(e: &Vec<char>) -> (r: FormulaError)
    ensures
        r matches FormulaError::Parse(_),
{
    FormulaError::Parse(chars_to_string(e))
}

/// Parse one expression: try each binary level, then the atoms.
pub(crate) fn parse_expr_chars(e: &Vec<char>) -> (r: Result<
    (FormulaNode, Vec<CellRef>),
    FormulaError,
>)
    ensures
        (spec_parse_expr(e@) matches Some(nv) ==> (r matches Ok(p) && p.0@ == nv && p.1@
            == spec_node_deps(nv))),
        (spec_parse_expr(e@) is None ==> (r matches Err(err) && err matches FormulaError::Parse(
            _,
        ))),
    decreases e@.len(), 2int,
{
    let t = trim_chars(e);
    if t.len() < e.len() {
        return parse_expr_chars(&t);
    }
    proof {
        crate::text::lemma_trim_same_len(e@);
    }
    let n: usize = e.len();
    if n == 0 {
        return Ok((FormulaNode::Number { value: Num::zero() }, Vec::new()));
    }
    let mut level: u8 = 0;
    while level < 5
        invariant
            n == e@.len(),
            n >= 1,
            spec_trim(e@) == e@,
            level <= 5,
            forall|l: int| 0 <= l < level ==> (#[trigger] spec_find_split(e@, l, e@.len() - 1, 0))
                is None,
        decreases 5 - level,
    {
        match find_split(e, level) {
            Some((st, len, op)) => {
                proof {
                    assert forall|l: int|
                        0 <= l < level implies (#[trigger] spec_find_split(e@, l, e@.len() - 1, 0))
                            is None by {
                    }
                    if level == 1 {
                        assert(spec_find_split(e@, 0, e@.len() - 1, 0) is None);
                    }
                    if level == 2 {
                        assert(spec_find_split(e@, 0, e@.len() - 1, 0) is None);
                        assert(spec_find_split(e@, 1, e@.len() - 1, 0) is None);
                    }
                    if level == 3 {
                        assert(spec_find_split(e@, 0, e@.len() - 1, 0) is None);
                        assert(spec_find_split(e@, 1, e@.len() - 1, 0) is None);
                        assert(spec_find_split(e@, 2, e@.len() - 1, 0) is None);
                    }
                    if level == 4 {
                        assert(spec_find_split(e@, 0, e@.len() - 1, 0) is None);
                        assert(spec_find_split(e@, 1, e@.len() - 1, 0) is None);
                        assert(spec_find_split(e@, 2, e@.len() - 1, 0) is None);
                        assert(spec_find_split(e@, 3, e@.len() - 1, 0) is None);
                    }
                    assert(spec_parse_expr(e@) == spec_parse_split(
                        e@,
                        (st as int, len as int, op),
                    ));
                }
                let left = copy_range(e, 0, st);
                let right = copy_range(e, st + len, n);
                let (lnode, mut ldeps) = match parse_expr_chars(&left) {
                    Ok(p) => p,
                    Err(err) => {
                        proof {
                            assert(spec_parse_expr(e@.subrange(0, st as int)) is None);
                            assert(spec_parse_split(e@, (st as int, len as int, op)) is None);
                        }
                        return Err(err);
                    },
                };
                let (rnode, mut rdeps) = match parse_expr_chars(&right) {
                    Ok(p) => p,
                    Err(err) => {
                        proof {
                            assert(spec_parse_expr(e@.subrange(st + len, e@.len() as int))
                                is None);
                            assert(spec_parse_split(e@, (st as int, len as int, op)) is None);
                        }
                        return Err(err);
                    },
                };
                let ghost ld = ldeps@;
                ldeps.append(&mut rdeps);
                let node = FormulaNode::BinaryOp {
                    op,
                    left: Box::new(lnode),
                    right: Box::new(rnode),
                };
                proof {
                    if spec_parse_expr(e@) is Some {
                        let nv = spec_parse_expr(e@)->Some_0;
                        assert(node@ == nv);
                        assert(spec_node_deps(nv) == spec_node_deps(lnode@) + spec_node_deps(
                            rnode@,
                        ));
                    }
                }
                return Ok((node, ldeps));
            },
            None => {
            },
        }
        level += 1;
    }
    proof {
        assert(spec_find_split(e@, 0, e@.len() - 1, 0) is None);
        assert(spec_find_split(e@, 1, e@.len() - 1, 0) is None);
        assert(spec_find_split(e@, 2, e@.len() - 1, 0) is None);
        assert(spec_find_split(e@, 3, e@.len() - 1, 0) is None);
        assert(spec_find_split(e@, 4, e@.len() - 1, 0) is None);
        assert(spec_parse_expr(e@) == spec_parse_atom(e@));
    }
    parse_atom_chars(e)
}

/// Upper-cased copy of a character vector.
fn upper_chars(v: &Vec<char>) -> (r: Vec<char>)
    ensures
        r@ == spec_upper_seq(v@),
{
    let n: usize = v.len();
    let mut u: Vec<char> = Vec::new();
    for i in 0..n
        invariant
            n == v@.len(),
            u@ == spec_upper_seq(v@).subrange(0, i as int),
    {
        u.push(to_upper_char(v[i]));
        proof {
            assert(u@ =~= spec_upper_seq(v@).subrange(0, i + 1));
        }
    }
    proof {
        assert(u@ =~= spec_upper_seq(v@));
    }
    u
}

/// Parse an atom: number, boolean, quoted string, reference, range,
/// parenthesized subexpression or function call.
#[verifier::rlimit(100)]
fn parse_atom_chars(e: &Vec<char>) -> (r: Result<(FormulaNode, Vec<CellRef>), FormulaError>)
    requires
        e@.len() >= 1,
        spec_trim(e@) == e@,
    ensures
        (spec_parse_atom(e@) matches Some(nv) ==> (r matches Ok(p) && p.0@ == nv && p.1@
            == spec_node_deps(nv))),
        (spec_parse_atom(e@) is None ==> (r matches Err(err) && err matches FormulaError::Parse(
            _,
        ))),
    decreases e@.len(), 1int,
{
    let n: usize = e.len();
    if let Some(num) = Num::parse_chars(e) {
        proof {
            crate::num::lemma_parse_num_fits(e@);
        }
        return Ok((FormulaNode::Number { value: num }, Vec::new()));
    }
    let u = upper_chars(e);
    if n == 4 && u[0] == 'T' && u[1] == 'R' && u[2] == 'U' && u[3] == 'E' {
        proof {
            assert(u@ =~= seq!['T', 'R', 'U', 'E']);
        }
        return Ok((FormulaNode::Boolean { value: true }, Vec::new()));
    }
    if n == 5 && u[0] == 'F' && u[1] == 'A' && u[2] == 'L' && u[3] == 'S' && u[4] == 'E' {
        proof {
            assert(u@ =~= seq!['F', 'A', 'L', 'S', 'E']);
        }
        return Ok((FormulaNode::Boolean { value: false }, Vec::new()));
    }
    proof {
        if spec_upper_seq(e@) == seq!['T', 'R', 'U', 'E'] {
            assert(u@.len() == 4 && u@[0] == 'T' && u@[1] == 'R' && u@[2] == 'U' && u@[3] == 'E');
        }
        if spec_upper_seq(e@) == seq!['F', 'A', 'L', 'S', 'E'] {
            assert(u@.len() == 5 && u@[0] == 'F' && u@[1] == 'A' && u@[2] == 'L' && u@[3] == 'S'
                && u@[4] == 'E');
        }
    }
    if n >= 2 && ((e[0] == '"' && e[n - 1] == '"') || (e[0] == '\'' && e[n - 1] == '\'')) {
        let inner = copy_range(e, 1, n - 1);
        return Ok((FormulaNode::Text { value: chars_to_string(&inner) }, Vec::new()));
    }
    if let Some(cell) = CellRef::parse_chars(e) {
        let mut deps: Vec<CellRef> = Vec::new();
        deps.push(cell);
        proof {
            assert(deps@ =~= seq![cell]);
        }
        return Ok((FormulaNode::CellRef { cell }, deps));
    }
    // Range: split at the first colon.
    let mut ci: usize = 0;
    while ci < n && e[ci] != ':'
        invariant
            ci <= n,
            n == e@.len(),
            forall|j: int| 0 <= j < ci ==> (#[trigger] e@[j]) != ':',
        decreases n - ci,
    {
        ci += 1;
    }
    proof {
        lemma_first_colon_is_first(e@, ci as int);
    }
    if ci < n {
        let head = copy_range(e, 0, ci);
        let tail = copy_range(e, ci + 1, n);
        if let Some(start) = CellRef::parse_chars(&head) {
            if let Some(end) = CellRef::parse_chars(&tail) {
                let deps = rect_deps(start, end);
                return Ok((FormulaNode::Range { start, end }, deps));
            }
        }
    }
    // Parenthesized subexpression.
    if n >= 2 && e[0] == '(' && e[n - 1] == ')' {
        let inner = copy_range(e, 1, n - 1);
        return parse_expr_chars(&inner);
    }
    // Function call: name up to the first opening parenthesis.
    if e[n - 1] == ')' {
        let mut p: usize = 0;
        while p < n && e[p] != '('
            invariant
                p <= n,
                n == e@.len(),
                forall|j: int| 0 <= j < p ==> (#[trigger] e@[j]) != '(',
            decreases n - p,
        {
            p += 1;
        }
        proof {
            lemma_first_paren_is_first(e@, p as int);
        }
        if p < n && p + 1 < n {
            let argstr = copy_range(e, p + 1, n - 1);
            match parse_args_chars(&argstr) {
                Ok((args, deps)) => {
                    let rawname = copy_range(e, 0, p);
                    let trimmed = trim_chars(&rawname);
                    let uname = upper_chars(&trimmed);
                    let name = chars_to_string(&uname);
                    return Ok((FormulaNode::Function { name, args }, deps));
                },
                Err(err) => {
                    return Err(err);
                },
            }
        }
    }
    Err(parse_error(e))
}

/// Parse a comma-separated argument list.
fn parse_args_chars(a: &Vec<char>) -> (r: Result<(Vec<FormulaNode>, Vec<CellRef>), FormulaError>)
    ensures
        (spec_parse_args(a@) matches Some(nvs) ==> (r matches Ok(p) && spec_node_views(p.0@)
            == nvs && p.1@ == spec_args_deps(nvs))),
        (spec_parse_args(a@) is None ==> (r matches Err(err) && err matches FormulaError::Parse(
            _,
        ))),
    decreases a@.len(), 4int,
{
    let t = trim_chars(a);
    if t.len() == 0 {
        proof {
            assert(spec_node_views(Seq::<FormulaNode>::empty()) =~= Seq::<NodeView>::empty());
            assert(spec_args_deps(Seq::<NodeView>::empty()) =~= Seq::<CellRef>::empty());
        }
        return Ok((Vec::new(), Vec::new()));
    }
    parse_args_go(a)
}

/// Parse a piece-by-piece argument list (split on depth-zero commas).
#[verifier::rlimit(100)]
fn parse_args_go(a: &Vec<char>) -> (r: Result<(Vec<FormulaNode>, Vec<CellRef>), FormulaError>)
    ensures
        (spec_parse_args_go(a@) matches Some(nvs) ==> (r matches Ok(p) && spec_node_views(p.0@)
            == nvs && p.1@ == spec_args_deps(nvs))),
        (spec_parse_args_go(a@) is None ==> (r matches Err(err) && err
            matches FormulaError::Parse(_))),
    decreases a@.len(), 3int,
{
    let n: usize = a.len();
    // First comma at parenthesis depth zero.
    let mut j: usize = 0;
    let mut depth: i128 = 0;
    let mut found: bool = false;
    while j < n && !found
        invariant
            j <= n,
            n == a@.len(),
            -(j as int) <= depth <= j as int,
            !found ==> spec_first_arg_comma(a@, 0, 0) == spec_first_arg_comma(
                a@,
                j as int,
                depth as int,
            ),
            found ==> j < n && spec_first_arg_comma(a@, 0, 0) == j as nat,
        decreases n - j, (if found { 0int } else { 1int }),
    {
        let c = a[j];
        if c == '(' {
            depth += 1;
            j += 1;
        } else if c == ')' {
            depth -= 1;
            j += 1;
        } else if c == ',' && depth == 0 {
            found = true;
        } else {
            j += 1;
        }
    }
    proof {
        lemma_first_arg_comma_bounds(a@, 0, 0);
        if !found {
            assert(spec_first_arg_comma(a@, j as int, depth as int) == a@.len());
        }
    }
    if !found {
        let t = trim_chars(a);
        if t.len() == 0 {
            proof {
                assert(spec_node_views(Seq::<FormulaNode>::empty()) =~= Seq::<NodeView>::empty());
                assert(spec_args_deps(Seq::<NodeView>::empty()) =~= Seq::<CellRef>::empty());
            }
            return Ok((Vec::new(), Vec::new()));
        }
        let (node, deps) = match parse_expr_chars(a) {
            Ok(p) => p,
            Err(err) => {
                return Err(err);
            },
        };
        let mut nodes: Vec<FormulaNode> = Vec::new();
        let ghost nv = spec_parse_expr(a@)->Some_0;
        nodes.push(node);
        proof {
            if spec_parse_args_go(a@) is Some {
                assert(spec_parse_expr(a@) is Some);
                assert(node@ == nv);
                assert(nodes@ =~= seq![node]);
                assert(nodes@.subrange(0, 0) =~= Seq::<FormulaNode>::empty());
                assert(spec_node_views(Seq::<FormulaNode>::empty()) =~= Seq::<NodeView>::empty());
                assert(spec_node_views(nodes@) == spec_node_views(nodes@.subrange(0, 0)).push(
                    spec_node_view(nodes@[0]),
                ));
                assert(spec_node_view(nodes@[0]) == nv);
                assert(spec_node_views(nodes@) =~= seq![nv]);
                lemma_args_deps_cons(nv, Seq::<NodeView>::empty());
                assert(seq![nv] + Seq::<NodeView>::empty() =~= seq![nv]);
                assert(spec_args_deps(seq![nv]) =~= spec_node_deps(nv));
            }
        }
        return Ok((nodes, deps));
    }
    let piece = copy_range(a, 0, j);
    let restv = copy_range(a, j + 1, n);
    let (pnode, mut pdeps) = match parse_expr_chars(&piece) {
        Ok(p) => p,
        Err(err) => {
            return Err(err);
        },
    };
    let (mut rnodes, mut rdeps) = match parse_args_go(&restv) {
        Ok(p) => p,
        Err(err) => {
            return Err(err);
        },
    };
    let ghost rn = rnodes@;
    let mut nodes: Vec<FormulaNode> = Vec::new();
    nodes.push(pnode);
    nodes.append(&mut rnodes);
    pdeps.append(&mut rdeps);
    proof {
        if spec_parse_args_go(a@) is Some {
            let pv = spec_parse_expr(a@.subrange(0, j as int))->Some_0;
            let rvs = spec_parse_args_go(a@.subrange(j + 1, n as int))->Some_0;
            lemma_node_views_index(nodes@);
            lemma_node_views_index(rn);
            assert(nodes@.len() == 1 + rn.len());
            assert forall|i: int| 0 <= i < nodes@.len() implies spec_node_views(nodes@)[i]
                == (seq![pv] + rvs)[i] by {
                if i == 0 {
                    assert(nodes@[0] == pnode);
                } else {
                    assert(nodes@[i] == rn[i - 1]);
                    assert(spec_node_views(rn)[i - 1] == spec_node_view(rn[i - 1]));
                }
            }
            assert(spec_node_views(nodes@) =~= seq![pv] + rvs);
            lemma_args_deps_cons(pv, rvs);
        }
    }
    Ok((nodes, pdeps))
}

/// A rectangle with inverted corners covers nothing.
pub proof fn lemma_rect_refs_empty(r0: int, c0: int, r1: int, c1: int)
    requires
        r0 > r1 || c0 > c1,
    ensures
        spec_rect_refs(r0, c0, r1, c1) == Seq::<CellRef>::empty(),
    decreases r1 - r0 + 1,
{
    if !(r0 > r1 || r0 < 0 || c0 < 0) {
        lemma_rect_refs_empty(r0 + 1, c0, r1, c1);
        assert(spec_row_refs(r0, c0, c1) =~= Seq::<CellRef>::empty());
        assert(spec_rect_refs(r0, c0, r1, c1) =~= Seq::<CellRef>::empty());
    }
}

/// The text of a formula with the leading equals sign stripped.
pub open spec fn spec_formula_body(s: Seq<char>) -> Seq<char> {
    if s.len() > 0 && s[0] == '=' {
        s.drop_first()
    } else {
        s
    }
}

/// Parse a formula string (an optional leading `=`, then an expression).
/// On success the result keeps the original text verbatim, the AST, and
/// the dependency list of the AST.
pub fn parse_formula(formula: &str) -> (r: Result<Formula, FormulaError>)
    ensures
        (spec_parse_expr(spec_formula_body(formula@)) matches Some(nv) ==> (r matches Ok(f)
            && f.raw@ == formula@ && f.ast@ == nv && f.dependencies@ == spec_node_deps(nv))),
        (spec_parse_expr(spec_formula_body(formula@)) is None ==> (r matches Err(err) && err
            matches FormulaError::Parse(_))),
{
    let raw = formula.to_owned();
    let cs = str_to_chars(formula);
    let n: usize = cs.len();
    let body = if n > 0 && cs[0] == '=' {
        copy_range(&cs, 1, n)
    } else {
        copy_range(&cs, 0, n)
    };
    proof {
        assert(body@ =~= spec_formula_body(formula@));
    }
    match parse_expr_chars(&body) {
        Ok((ast, dependencies)) => Ok(Formula { raw, ast, dependencies }),
        Err(err) => Err(err),
    }
}

/// A copy of an AST node with the same model.
pub fn dup_node(n: &FormulaNode) -> (r: FormulaNode)
    ensures
        r@ == n@,
    decreases n, 0int,
{
    match n {
        FormulaNode::Number { value } => FormulaNode::Number { value: *value },
        FormulaNode::Text { value } => FormulaNode::Text { value: value.clone() },
        FormulaNode::Boolean { value } => FormulaNode::Boolean { value: *value },
        FormulaNode::CellRef { cell } => FormulaNode::CellRef { cell: *cell },
        FormulaNode::Range { start, end } => FormulaNode::Range { start: *start, end: *end },
        FormulaNode::BinaryOp { op, left, right } => FormulaNode::BinaryOp {
            op: *op,
            left: Box::new(dup_node(left)),
            right: Box::new(dup_node(right)),
        },
        FormulaNode::UnaryOp { op, operand } => FormulaNode::UnaryOp {
            op: *op,
            operand: Box::new(dup_node(operand)),
        },
        FormulaNode::Function { name, args } => FormulaNode::Function {
            name: name.clone(),
            args: dup_nodes(args),
        },
    }
}

/// Copies of a node list, with the same models.
fn dup_nodes(args: &Vec<FormulaNode>) -> (r: Vec<FormulaNode>)
    ensures
        spec_node_views(r@) == spec_node_views(args@),
    decreases args, 1int,
{
    let m: usize = args.len();
    let mut out: Vec<FormulaNode> = Vec::new();
    let mut i: usize = 0;
    while i < m
        invariant
            m == args@.len(),
            0 <= i <= m,
            out@.len() == i,
            forall|x: int| 0 <= x < i ==> (#[trigger] out@[x])@ == args@[x]@,
        decreases m - i,
    {
        proof {
            assert(decreases_to!(args => args@[i as int]));
        }
        out.push(dup_node(&args[i]));
        i += 1;
    }
    proof {
        lemma_node_views_index(out@);
        lemma_node_views_index(args@);
        assert forall|x: int|
            0 <= x < out@.len() implies spec_node_views(out@)[x] == spec_node_views(
            args@,
        )[x] by {
            assert(spec_node_views(out@)[x] == spec_node_view(out@[x]));
            assert(spec_node_views(args@)[x] == spec_node_view(args@[x]));
        }
        assert(spec_node_views(out@) =~= spec_node_views(args@));
    }
    out
}

impl Formula {
    /// A copy of this formula: the text is equal, the AST and the
    /// dependency list have the same models.
    pub fn duplicate(&self) -> (r: Formula)
        ensures
            r.raw == self.raw,
            r.ast@ == self.ast@,
            r.dependencies@ == self.dependencies@,
    {
        let m: usize = self.dependencies.len();
        let mut deps: Vec<CellRef> = Vec::new();
        let mut i: usize = 0;
        while i < m
            invariant
                m == self.dependencies@.len(),
                0 <= i <= m,
                deps@ == self.dependencies@.subrange(0, i as int),
            decreases m - i,
        {
            deps.push(self.dependencies[i]);
            proof {
                assert(deps@ =~= self.dependencies@.subrange(0, i + 1));
            }
            i += 1;
        }
        proof {
            assert(deps@ =~= self.dependencies@);
        }
        Formula { raw: self.raw.clone(), ast: dup_node(&self.ast), dependencies: deps }
    }
}

} // verus!
