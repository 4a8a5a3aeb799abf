//! Condition trees: nested AND/OR boolean expressions over leaf comparisons,
//! evaluated against a row's resolved values.  Every malformed input — an
//! unknown column key, an unknown operator, a missing literal, or a
//! comparison across incompatible value types — evaluates to `false` rather
//! than faulting.

use vstd::prelude::*;
use crate::row::{CellsView, Row, lookup};
use crate::text::{chars_contains, chars_lt, chars_vec, has_sub, lex_lt};
use crate::value::{Value, ValueView, blank, date_code, date_text, is_blank, parse_date_code};

verus! {

/// The connective of an internal node.
#[derive(Debug, Clone, Copy, PartialEq, Eq, Structural)]
pub enum Logic {
    And,
    Or,
}

/// A leaf's comparison operator.  The set is closed: any other operator
/// name read from the wire is kept as [`Operator::Other`] and never matches.
#[derive(Debug, PartialEq)]
pub enum Operator {
    Eq,
    Ne,
    Lt,
    Le,
    Gt,
    Ge,
    IsEmpty,
    NotEmpty,
    Has,
    Other(String),
}

/// The mathematical shape of an [`Operator`].
pub enum OperatorView {
    Eq,
    Ne,
    Lt,
    Le,
    Gt,
    Ge,
    IsEmpty,
    NotEmpty,
    Has,
    Other(Seq<char>),
}

impl View for Operator {
    type V = OperatorView;

    open spec fn view(&self) -> OperatorView {
        match self {
            Operator::Eq => OperatorView::Eq,
            Operator::Ne => OperatorView::Ne,
            Operator::Lt => OperatorView::Lt,
            Operator::Le => OperatorView::Le,
            Operator::Gt => OperatorView::Gt,
            Operator::Ge => OperatorView::Ge,
            Operator::IsEmpty => OperatorView::IsEmpty,
            Operator::NotEmpty => OperatorView::NotEmpty,
            Operator::Has => OperatorView::Has,
            Operator::Other(s) => OperatorView::Other(s@),
        }
    }
}

/// A condition tree: an internal AND/OR node over ordered children, or a
/// leaf comparing one column's value against an optional literal.
#[derive(Debug, PartialEq)]
pub enum ConditionTree {
    Branch { logic: Logic, children: Vec<ConditionTree> },
    Leaf { column: String, operator: Operator, literal: Option<Value> },
}

/// The mathematical shape of a [`ConditionTree`].
pub enum TreeView {
    Branch { logic: Logic, children: Seq<TreeView> },
    Leaf { column: Seq<char>, operator: OperatorView, literal: Option<ValueView> },
}

/// The view of a tree, written as a recursion over the executable type.
pub open spec fn abs_tree(t: ConditionTree) -> TreeView
    decreases t,
{
    match t {
        ConditionTree::Branch { logic, children } => TreeView::Branch {
            logic,
            children: abs_list(children@),
        },
        ConditionTree::Leaf { column, operator, literal } => TreeView::Leaf {
            column: column@,
            operator: operator@,
            literal: match literal {
                Some(v) => Some(v@),
                None => None,
            },
        },
    }
}

/// The views of a list of trees, in order.
pub open spec fn abs_list(ts: Seq<ConditionTree>) -> Seq<TreeView>
    decreases ts,
{
    if ts.len() == 0 {
        Seq::empty()
    } else {
        seq![abs_tree(ts[0])] + abs_list(ts.drop_first())
    }
}

/// `abs_list` maps `abs_tree` over the list.
pub proof fn lemma_abs_list_index(ts: Seq<ConditionTree>, i: int)
    requires
        0 <= i < ts.len(),
    ensures
        abs_list(ts).len() == ts.len(),
        abs_list(ts)[i] == abs_tree(ts[i]),
    decreases ts.len(),
{
    lemma_abs_list_len(ts);
    if i > 0 {
        lemma_abs_list_index(ts.drop_first(), i - 1);
    }
}

/// `abs_list` keeps the length of the list.
pub proof fn lemma_abs_list_len(ts: Seq<ConditionTree>)
    ensures
        abs_list(ts).len() == ts.len(),
    decreases ts.len(),
{
    if ts.len() > 0 {
        lemma_abs_list_len(ts.drop_first());
    }
}

impl View for ConditionTree {
    type V = TreeView;

    open spec fn view(&self) -> TreeView {
        abs_tree(*self)
    }
}

/// Ordering comparison of two integers under an operator; `false` for any
/// operator that is not one of the six ordered comparisons.
pub open spec fn ordered_cmp(op: OperatorView, a: int, b: int) -> bool {
    match op {
        OperatorView::Eq => a == b,
        OperatorView::Ne => a != b,
        OperatorView::Lt => a < b,
        OperatorView::Le => a <= b,
        OperatorView::Gt => a > b,
        OperatorView::Ge => a >= b,
        _ => false,
    }
}

/// Comparison of a row value against a literal, typed by the row value's
/// own tag.  Any cross-type pairing fails closed to `false`; in particular a
/// calendar-day value compared against a text that is not a `YYYY-MM-DD`
/// date is `false`.
pub open spec fn compare(op: OperatorView, v: ValueView, l: ValueView) -> bool {
    match (v, l) {
        (ValueView::Text(s), ValueView::Text(t)) => match op {
            OperatorView::Eq => s == t,
            OperatorView::Ne => s != t,
            OperatorView::Lt => lex_lt(s, t),
            OperatorView::Le => !lex_lt(t, s),
            OperatorView::Gt => lex_lt(t, s),
            OperatorView::Ge => !lex_lt(s, t),
            OperatorView::Has => has_sub(s, t),
            _ => false,
        },
        (ValueView::Num(a), ValueView::Num(b)) => ordered_cmp(op, a as int, b as int),
        (ValueView::Flag(a), ValueView::Flag(b)) => match op {
            OperatorView::Eq => a == b,
            OperatorView::Ne => a != b,
            _ => false,
        },
        (ValueView::Day(d), ValueView::Text(t)) => if date_text(t) {
            ordered_cmp(op, d as int, date_code(t))
        } else {
            false
        },
        (ValueView::Stamp(a), ValueView::Num(b)) => ordered_cmp(op, a as int, b as int),
        _ => false,
    }
}

/// Evaluation of one leaf against a row.  Fails closed: an unknown column
/// key, an unknown operator, or a comparison without a literal is `false`.
pub open spec fn eval_leaf(
    column: Seq<char>,
    op: OperatorView,
    lit: Option<ValueView>,
    cells: CellsView,
) -> bool {
    match lookup(cells, column) {
        None => false,
        Some(v) => match op {
            OperatorView::IsEmpty => is_blank(v),
            OperatorView::NotEmpty => !is_blank(v),
            OperatorView::Other(_) => false,
            _ => match lit {
                None => false,
                Some(l) => compare(op, v, l),
            },
        },
    }
}

/// Evaluation of a whole tree against a row.
pub open spec fn eval_tree(t: TreeView, cells: CellsView) -> bool
    decreases t,
{
    match t {
        TreeView::Leaf { column, operator, literal } => eval_leaf(column, operator, literal, cells),
        TreeView::Branch { logic, children } => match logic {
            Logic::And => eval_all(children, cells),
            Logic::Or => eval_any(children, cells),
        },
    }
}

/// Conjunction over children; the empty list is vacuously `true`.
pub open spec fn eval_all(cs: Seq<TreeView>, cells: CellsView) -> bool
    decreases cs,
{
    if cs.len() == 0 {
        true
    } else {
        eval_tree(cs[0], cells) && eval_all(cs.drop_first(), cells)
    }
}

/// Disjunction over children; the empty list is vacuously `false`.
pub open spec fn eval_any(cs: Seq<TreeView>, cells: CellsView) -> bool
    decreases cs,
{
    if cs.len() == 0 {
        false
    } else {
        eval_tree(cs[0], cells) || eval_any(cs.drop_first(), cells)
    }
}

/// Vacuous laws: the empty AND is `true` and the empty OR is `false`.
pub proof fn lemma_vacuous_nodes(cells: CellsView)
    ensures
        eval_all(Seq::empty(), cells),
        !eval_any(Seq::empty(), cells),
{
}

/// A `false` child decides an AND node regardless of every other child, and
/// a `true` child decides an OR node regardless of every other child.
pub proof fn lemma_absorbing_child(cs: Seq<TreeView>, i: int, cells: CellsView)
    requires
        0 <= i < cs.len(),
    ensures
        !eval_tree(cs[i], cells) ==> !eval_all(cs, cells),
        eval_tree(cs[i], cells) ==> eval_any(cs, cells),
    decreases cs.len(),
{
    if i > 0 {
        assert(cs.drop_first()[i - 1] == cs[i]);
        lemma_absorbing_child(cs.drop_first(), i - 1, cells);
    }
}

/// Fail-closed law: a leaf whose column key is absent from the row, or
/// whose operator is outside the closed set, evaluates to `false`.
pub proof fn lemma_fail_closed(
    column: Seq<char>,
    op: OperatorView,
    lit: Option<ValueView>,
    cells: CellsView,
)
    ensures
        lookup(cells, column) is None ==> !eval_leaf(column, op, lit, cells),
        (op matches OperatorView::Other(_)) ==> !eval_leaf(column, op, lit, cells),
{
}

fn cmp_i64(op: &Operator, a: i64, b: i64) -> (r: bool)
    ensures
        r == ordered_cmp(op@, a as int, b as int),
{
    match op {
        Operator::Eq => a == b,
        Operator::Ne => a != b,
        Operator::Lt => a < b,
        Operator::Le => a <= b,
        Operator::Gt => a > b,
        Operator::Ge => a >= b,
        _ => false,
    }
}

fn compare_values(op: &Operator, v: &Value, l: &Value) -> (r: bool)
    ensures
        r == compare(op@, v@, l@),
{
    match (v, l) {
        (Value::Text(s), Value::Text(t)) => match op {
            Operator::Eq => *s == *t,
            Operator::Ne => !(*s == *t),
            Operator::Lt => chars_lt(&chars_vec(s.as_str()), &chars_vec(t.as_str())),
            Operator::Le => !chars_lt(&chars_vec(t.as_str()), &chars_vec(s.as_str())),
            Operator::Gt => chars_lt(&chars_vec(t.as_str()), &chars_vec(s.as_str())),
            Operator::Ge => !chars_lt(&chars_vec(s.as_str()), &chars_vec(t.as_str())),
            Operator::Has => chars_contains(&chars_vec(s.as_str()), &chars_vec(t.as_str())),
            _ => false,
        },
        (Value::Num(a), Value::Num(b)) => cmp_i64(op, *a, *b),
        (Value::Flag(a), Value::Flag(b)) => match op {
            Operator::Eq => *a == *b,
            Operator::Ne => *a != *b,
            _ => false,
        },
        (Value::Day(d), Value::Text(t)) => {
            match parse_date_code(&chars_vec(t.as_str())) {
                Some(c) => cmp_i64(op, *d as i64, c as i64),
                None => false,
            }
        },
        (Value::Stamp(a), Value::Num(b)) => cmp_i64(op, *a, *b),
        _ => false,
    }
}

fn eval_leaf_cells(column: &String, op: &Operator, lit: &Option<Value>, row: &Row) -> (r: bool)
    ensures
        r == eval_leaf(
            column@,
            op@,
            match lit {
                Some(l) => Some(l@),
                None => None,
            },
            row@,
        ),
{
    match row.get(column) {
        None => false,
        Some(v) => match op {
            Operator::IsEmpty => blank(v),
            Operator::NotEmpty => !blank(v),
            Operator::Other(_) => false,
            _ => match lit {
                None => false,
                Some(l) => compare_values(op, v, l),
            },
        },
    }
}

impl ConditionTree {
    /// Evaluates this tree against a row.  Internal AND/OR nodes
    /// short-circuit left to right; the empty AND is `true` and the empty OR
    /// is `false`; malformed leaves fail closed to `false`.
    #[verifier::loop_isolation(false)]
    pub fn evaluate(&self, row: &Row) -> (r: bool)
        ensures
            r == eval_tree(self@, row@),
        decreases *self,
    {
        match self {
            ConditionTree::Leaf { column, operator, literal } => {
                eval_leaf_cells(column, operator, literal, row)
            },
            ConditionTree::Branch { logic, children } => {
                let ghost cs = abs_list(children@);
                proof {
                    lemma_abs_list_len(children@);
                    assert(self@ == (TreeView::Branch { logic: *logic, children: cs }));
                    assert(cs.skip(0) =~= cs);
                }
                match logic {
                    Logic::And => {
                        let mut i: usize = 0;
                        loop
                            invariant
                                i <= children.len(),
                                eval_tree(self@, row@) == eval_all(cs.skip(i as int), row@),
                            decreases children.len() - i,
                        {
                            if i == children.len() {
                                assert(cs.skip(i as int).len() == 0);
                                return true;
                            }
                            assert(cs.skip(i as int)[0] == cs[i as int]);
                            proof {
                                lemma_abs_list_index(children@, i as int);
                            }
                            if !children[i].evaluate(row) {
                                return false;
                            }
                            proof {
                                assert(cs.skip(i as int).drop_first() =~= cs.skip(i as int + 1));
                            }
                            i += 1;
                        }
                    },
                    Logic::Or => {
                        let mut i: usize = 0;
                        loop
                            invariant
                                i <= children.len(),
                                eval_tree(self@, row@) == eval_any(cs.skip(i as int), row@),
                            decreases children.len() - i,
                        {
                            if i == children.len() {
                                assert(cs.skip(i as int).len() == 0);
                                return false;
                            }
                            assert(cs.skip(i as int)[0] == cs[i as int]);
                            proof {
                                lemma_abs_list_index(children@, i as int);
                            }
                            if children[i].evaluate(row) {
                                return true;
                            }
                            proof {
                                assert(cs.skip(i as int).drop_first() =~= cs.skip(i as int + 1));
                            }
                            i += 1;
                        }
                    },
                }
            },
        }
    }
}

} // verus!
