//! Computed columns: a small arithmetic expression over other column keys,
//! with the operators `+ - * /`, parentheses, and null-to-zero coalescing.
//! A null, absent or non-numeric operand counts as `0`; division by zero
//! yields `0`; an unparseable expression yields a computed value of `0`.

use vstd::prelude::*;
use crate::row::{CellsView, Row, lookup};
use crate::schema::{ColumnDef, ColumnType, Registry, is_live};
use crate::text::{chars_vec, string_of_chars};
use crate::value::{Value, ValueView};

verus! {

/// A parsed computed-column expression.
#[derive(Debug)]
pub enum Expr {
    /// A column reference.
    Col(String),
    Add(Box<Expr>, Box<Expr>),
    Sub(Box<Expr>, Box<Expr>),
    Mul(Box<Expr>, Box<Expr>),
    Div(Box<Expr>, Box<Expr>),
}

/// The mathematical shape of an [`Expr`].
pub enum ExprView {
    Col(Seq<char>),
    Add(Box<ExprView>, Box<ExprView>),
    Sub(Box<ExprView>, Box<ExprView>),
    Mul(Box<ExprView>, Box<ExprView>),
    Div(Box<ExprView>, Box<ExprView>),
}

/// The view of an expression, written as a recursion over the executable
/// type.
pub open spec fn abs_expr(e: Expr) -> ExprView
    decreases e,
{
    match e {
        Expr::Col(k) => ExprView::Col(k@),
        Expr::Add(a, b) => ExprView::Add(Box::new(abs_expr(*a)), Box::new(abs_expr(*b))),
        Expr::Sub(a, b) => ExprView::Sub(Box::new(abs_expr(*a)), Box::new(abs_expr(*b))),
        Expr::Mul(a, b) => ExprView::Mul(Box::new(abs_expr(*a)), Box::new(abs_expr(*b))),
        Expr::Div(a, b) => ExprView::Div(Box::new(abs_expr(*a)), Box::new(abs_expr(*b))),
    }
}

impl View for Expr {
    type V = ExprView;

    open spec fn view(&self) -> ExprView {
        abs_expr(*self)
    }
}

/// The number an operand coalesces to: a numeric value itself, and `0` for
/// null, absent, or non-numeric values.
pub open spec fn num_of(v: Option<ValueView>) -> i64 {
    match v {
        Some(ValueView::Num(n)) => n,
        _ => 0,
    }
}

/// Evaluation of an expression against a row.  Addition, subtraction and
/// multiplication wrap in 64 bits; a division by zero (or the one wrapping
/// division case) yields `0`.
pub open spec fn eval_expr(e: ExprView, cells: CellsView) -> i64
    decreases e,
{
    match e {
        ExprView::Col(k) => num_of(lookup(cells, k)),
        ExprView::Add(a, b) => eval_expr(*a, cells).wrapping_add(eval_expr(*b, cells)),
        ExprView::Sub(a, b) => eval_expr(*a, cells).wrapping_sub(eval_expr(*b, cells)),
        ExprView::Mul(a, b) => eval_expr(*a, cells).wrapping_mul(eval_expr(*b, cells)),
        ExprView::Div(a, b) => match eval_expr(*a, cells).checked_div(eval_expr(*b, cells)) {
            Some(q) => q,
            None => 0,
        },
    }
}

/// A character of a column key inside an expression.
pub open spec fn is_word_char(c: char) -> bool {
    ('a' <= c && c <= 'z') || ('A' <= c && c <= 'Z') || ('0' <= c && c <= '9') || c == '_'
}

/// The end of the run of word characters starting at `pos`.
pub open spec fn word_end(s: Seq<char>, pos: int) -> int
    decreases s.len() - pos,
{
    if 0 <= pos < s.len() && is_word_char(s[pos]) {
        word_end(s, pos + 1)
    } else {
        pos
    }
}

/// Parser for a factor: a column key, or a parenthesised expression.
pub open spec fn sp_factor(s: Seq<char>, pos: int) -> Option<(ExprView, int)>
    decreases s.len() - pos, 0int,
{
    if pos < 0 || pos >= s.len() {
        None
    } else if s[pos] == '(' {
        match sp_expr(s, pos + 1) {
            Some((e, p)) => if p < s.len() && s[p] == ')' {
                Some((e, p + 1))
            } else {
                None
            },
            None => None,
        }
    } else if is_word_char(s[pos]) {
        let e = word_end(s, pos);
        Some((ExprView::Col(s.subrange(pos, e)), e))
    } else {
        None
    }
}

/// Parser for the `* /` tail of a term, left associative.
pub open spec fn sp_term_more(s: Seq<char>, acc: ExprView, pos: int) -> Option<(ExprView, int)>
    decreases s.len() - pos, 2int,
{
    if 0 <= pos < s.len() && (s[pos] == '*' || s[pos] == '/') {
        match sp_factor(s, pos + 1) {
            Some((f, p2)) => {
                let joined = if s[pos] == '*' {
                    ExprView::Mul(Box::new(acc), Box::new(f))
                } else {
                    ExprView::Div(Box::new(acc), Box::new(f))
                };
                if p2 <= pos + 1 || p2 > s.len() {
                    None
                } else {
                    sp_term_more(s, joined, p2)
                }
            },
            None => None,
        }
    } else {
        Some((acc, pos))
    }
}

/// Parser for a term: factors joined by `*` and `/`.
pub open spec fn sp_term(s: Seq<char>, pos: int) -> Option<(ExprView, int)>
    decreases s.len() - pos, 1int,
{
    match sp_factor(s, pos) {
        Some((f, p)) => if p <= pos || p > s.len() {
            None
        } else {
            sp_term_more(s, f, p)
        },
        None => None,
    }
}

/// Parser for the `+ -` tail of an expression, left associative.
pub open spec fn sp_expr_more(s: Seq<char>, acc: ExprView, pos: int) -> Option<(ExprView, int)>
    decreases s.len() - pos, 4int,
{
    if 0 <= pos < s.len() && (s[pos] == '+' || s[pos] == '-') {
        match sp_term(s, pos + 1) {
            Some((t, p2)) => {
                let joined = if s[pos] == '+' {
                    ExprView::Add(Box::new(acc), Box::new(t))
                } else {
                    ExprView::Sub(Box::new(acc), Box::new(t))
                };
                if p2 <= pos + 1 || p2 > s.len() {
                    None
                } else {
                    sp_expr_more(s, joined, p2)
                }
            },
            None => None,
        }
    } else {
        Some((acc, pos))
    }
}

/// Parser for an expression: terms joined by `+` and `-`.
pub open spec fn sp_expr(s: Seq<char>, pos: int) -> Option<(ExprView, int)>
    decreases s.len() - pos, 3int,
{
    match sp_term(s, pos) {
        Some((t, p)) => if p <= pos || p > s.len() {
            None
        } else {
            sp_expr_more(s, t, p)
        },
        None => None,
    }
}

/// The whole-text parse: blanks are insignificant and stripped first; the
/// expression must span the entire text.
pub open spec fn parse_expr_full(s: Seq<char>) -> Option<ExprView> {
    let t = s.filter(|c: char| c != ' ');
    match sp_expr(t, 0) {
        Some((e, p)) => if p == t.len() {
            Some(e)
        } else {
            None
        },
        None => None,
    }
}

spec fn opt_view(r: Option<(Expr, usize)>) -> Option<(ExprView, int)> {
    match r {
        Some((e, p)) => Some((e@, p as int)),
        None => None,
    }
}

#[verifier::loop_isolation(false)]
fn ex_word_end(s: &Vec<char>, pos: usize) -> (r: usize)
    requires
        pos <= s@.len(),
    ensures
        r == word_end(s@, pos as int),
        pos <= r <= s@.len(),
    decreases s@.len() - pos,
{
    if pos < s.len() {
        let c = s[pos];
        if ('a' <= c && c <= 'z') || ('A' <= c && c <= 'Z') || ('0' <= c && c <= '9') || c == '_' {
            return ex_word_end(s, pos + 1);
        }
    }
    pos
}

#[verifier::loop_isolation(false)]
fn ex_factor(s: &Vec<char>, pos: usize) -> (r: Option<(Expr, usize)>)
    requires
        pos <= s@.len(),
    ensures
        opt_view(r) == sp_factor(s@, pos as int),
        r matches Some(x) ==> x.1 <= s@.len(),
    decreases s@.len() - pos, 0int,
{
    if pos >= s.len() {
        return None;
    }
    if s[pos] == '(' {
        match ex_expr(s, pos + 1) {
            Some((e, p)) => {
                if p < s.len() && s[p] == ')' {
                    Some((e, p + 1))
                } else {
                    None
                }
            },
            None => None,
        }
    } else {
        let c = s[pos];
        if ('a' <= c && c <= 'z') || ('A' <= c && c <= 'Z') || ('0' <= c && c <= '9') || c == '_' {
            let e = ex_word_end(s, pos);
            let mut key: Vec<char> = Vec::new();
            let mut i: usize = pos;
            while i < e
                invariant
                    pos <= i <= e,
                    key@ == s@.subrange(pos as int, i as int),
                decreases e - i,
            {
                key.push(s[i]);
                proof {
                    assert(s@.subrange(pos as int, i as int).push(s@[i as int]) =~= s@.subrange(
                        pos as int,
                        i as int + 1,
                    ));
                }
                i += 1;
            }
            Some((Expr::Col(string_of_chars(&key)), e))
        } else {
            None
        }
    }
}

#[verifier::loop_isolation(false)]
fn ex_term_more(s: &Vec<char>, acc: Expr, pos: usize) -> (r: Option<(Expr, usize)>)
    requires
        pos <= s@.len(),
    ensures
        opt_view(r) == sp_term_more(s@, acc@, pos as int),
        r matches Some(x) ==> x.1 <= s@.len(),
    decreases s@.len() - pos, 2int,
{
    if pos < s.len() && (s[pos] == '*' || s[pos] == '/') {
        let star = s[pos] == '*';
        match ex_factor(s, pos + 1) {
            Some((f, p2)) => {
                let joined = if star {
                    Expr::Mul(Box::new(acc), Box::new(f))
                } else {
                    Expr::Div(Box::new(acc), Box::new(f))
                };
                if p2 <= pos + 1 || p2 > s.len() {
                    None
                } else {
                    ex_term_more(s, joined, p2)
                }
            },
            None => None,
        }
    } else {
        Some((acc, pos))
    }
}

#[verifier::loop_isolation(false)]
fn ex_term(s: &Vec<char>, pos: usize) -> (r: Option<(Expr, usize)>)
    requires
        pos <= s@.len(),
    ensures
        opt_view(r) == sp_term(s@, pos as int),
        r matches Some(x) ==> x.1 <= s@.len(),
    decreases s@.len() - pos, 1int,
{
    match ex_factor(s, pos) {
        Some((f, p)) => {
            if p <= pos || p > s.len() {
                None
            } else {
                ex_term_more(s, f, p)
            }
        },
        None => None,
    }
}

#[verifier::loop_isolation(false)]
fn ex_expr_more(s: &Vec<char>, acc: Expr, pos: usize) -> (r: Option<(Expr, usize)>)
    requires
        pos <= s@.len(),
    ensures
        opt_view(r) == sp_expr_more(s@, acc@, pos as int),
        r matches Some(x) ==> x.1 <= s@.len(),
    decreases s@.len() - pos, 4int,
{
    if pos < s.len() && (s[pos] == '+' || s[pos] == '-') {
        let plus = s[pos] == '+';
        match ex_term(s, pos + 1) {
            Some((t, p2)) => {
                let joined = if plus {
                    Expr::Add(Box::new(acc), Box::new(t))
                } else {
                    Expr::Sub(Box::new(acc), Box::new(t))
                };
                if p2 <= pos + 1 || p2 > s.len() {
                    None
                } else {
                    ex_expr_more(s, joined, p2)
                }
            },
            None => None,
        }
    } else {
        Some((acc, pos))
    }
}

#[verifier::loop_isolation(false)]
fn ex_expr(s: &Vec<char>, pos: usize) -> (r: Option<(Expr, usize)>)
    requires
        pos <= s@.len(),
    ensures
        opt_view(r) == sp_expr(s@, pos as int),
        r matches Some(x) ==> x.1 <= s@.len(),
    decreases s@.len() - pos, 3int,
{
    match ex_term(s, pos) {
        Some((t, p)) => {
            if p <= pos || p > s.len() {
                None
            } else {
                ex_expr_more(s, t, p)
            }
        },
        None => None,
    }
}

/// Parses a computed-column expression; `None` when the text is not a
/// well-formed expression.
pub fn parse_expression(src: &str) -> (r: Option<Expr>)
    ensures
        match (r, parse_expr_full(src@)) {
            (Some(e), Some(ev)) => e@ == ev,
            (None, None) => true,
            _ => false,
        },
{
    let all = chars_vec(src);
    let mut t: Vec<char> = Vec::new();
    let mut i: usize = 0;
    proof {
        reveal(Seq::filter);
        assert(all@.subrange(0, 0).filter(|c: char| c != ' ') =~= Seq::<char>::empty());
    }
    while i < all.len()
        invariant
            i <= all@.len(),
            t@ == all@.subrange(0, i as int).filter(|c: char| c != ' '),
        decreases all@.len() - i,
    {
        let c = all[i];
        if c != ' ' {
            t.push(c);
        }
        proof {
            reveal(Seq::filter);
            assert(all@.subrange(0, i as int + 1).drop_last() =~= all@.subrange(0, i as int));
            assert(all@.subrange(0, i as int + 1).last() == all@[i as int]);
        }
        i += 1;
    }
    proof {
        assert(all@.subrange(0, all@.len() as int) =~= all@);
    }
    match ex_expr(&t, 0) {
        Some((e, p)) => {
            if p == t.len() {
                Some(e)
            } else {
                None
            }
        },
        None => None,
    }
}

/// Evaluates an expression against a row.
pub fn eval(e: &Expr, row: &Row) -> (r: i64)
    ensures
        r == eval_expr(e@, row@),
    decreases *e,
{
    match e {
        Expr::Col(k) => match row.get(k) {
            Some(v) => match v {
                Value::Num(n) => *n,
                _ => 0,
            },
            None => 0,
        },
        Expr::Add(a, b) => eval(a, row).wrapping_add(eval(b, row)),
        Expr::Sub(a, b) => eval(a, row).wrapping_sub(eval(b, row)),
        Expr::Mul(a, b) => eval(a, row).wrapping_mul(eval(b, row)),
        Expr::Div(a, b) => match eval(a, row).checked_div(eval(b, row)) {
            Some(q) => q,
            None => 0,
        },
    }
}

/// The value a computed column takes on a row: the evaluated expression, or
/// `0` when the expression is missing or does not parse.
pub open spec fn computed_value(c: ColumnDef, base: CellsView) -> ValueView {
    match c.compute_expression {
        Some(x) => match parse_expr_full(x@) {
            Some(e) => ValueView::Num(eval_expr(e, base)),
            None => ValueView::Num(0),
        },
        None => ValueView::Num(0),
    }
}

/// The cells appended by the computed-column evaluator: one per live
/// computed column, in column order, each evaluated against the base row.
pub open spec fn computed_cells(base: CellsView, cols: Seq<ColumnDef>) -> CellsView
    decreases cols.len(),
{
    if cols.len() == 0 {
        Seq::empty()
    } else {
        let rest = computed_cells(base, cols.drop_last());
        let c = cols.last();
        if is_live(c) && c.ctype == ColumnType::Computed {
            rest.push((c.key@, computed_value(c, base)))
        } else {
            rest
        }
    }
}

/// Computed-column evaluation is deterministic: the appended cells are a
/// function of the row snapshot and the column snapshot alone.
pub proof fn lemma_computed_deterministic(
    base1: CellsView,
    base2: CellsView,
    cols1: Seq<ColumnDef>,
    cols2: Seq<ColumnDef>,
)
    requires
        base1 == base2,
        cols1 == cols2,
    ensures
        computed_cells(base1, cols1) == computed_cells(base2, cols2),
{
}

/// Returns the row extended with every live computed column's value, each
/// evaluated against the row's stored values.
#[verifier::loop_isolation(false)]
pub fn evaluate_computed_columns(row: &Row, registry: &Registry) -> (r: Row)
    ensures
        r@ == row@ + computed_cells(row@, registry.columns@),
{
    let mut out = Row::new();
    let mut i: usize = 0;
    proof {
        assert(out@ =~= row@.subrange(0, 0));
    }
    while i < row.cells.len()
        invariant
            i <= row.cells@.len(),
            out@ == row@.subrange(0, i as int),
        decreases row.cells@.len() - i,
    {
        let key = row.cells[i].0.clone();
        let v = row.cells[i].1.dup();
        out.push(key, v);
        proof {
            assert(row@.subrange(0, i as int).push(row@[i as int]) =~= row@.subrange(
                0,
                i as int + 1,
            ));
        }
        i += 1;
    }
    proof {
        assert(row@.subrange(0, row@.len() as int) =~= row@);
        assert(computed_cells(row@, registry.columns@.subrange(0, 0)) =~= Seq::<(
            Seq<char>,
            ValueView,
        )>::empty());
        assert(out@ =~= row@ + computed_cells(row@, registry.columns@.subrange(0, 0)));
    }
    let mut j: usize = 0;
    while j < registry.columns.len()
        invariant
            j <= registry.columns@.len(),
            out@ == row@ + computed_cells(row@, registry.columns@.subrange(0, j as int)),
        decreases registry.columns@.len() - j,
    {
        let c = &registry.columns[j];
        if !c.archived && c.ctype == ColumnType::Computed {
            let v: i64 = match &c.compute_expression {
                Some(x) => match parse_expression(x.as_str()) {
                    Some(e) => eval(&e, row),
                    None => 0,
                },
                None => 0,
            };
            let key = c.key.clone();
            out.push(key, Value::Num(v));
        }
        proof {
            assert(registry.columns@.subrange(0, j as int + 1).drop_last() =~= registry.columns@
                .subrange(0, j as int));
            assert(registry.columns@.subrange(0, j as int + 1).last() == registry.columns@[
                j as int]);
        }
        j += 1;
    }
    proof {
        assert(registry.columns@.subrange(0, registry.columns@.len() as int) =~= registry
            .columns@);
    }
    out
}

/// A live computed column that cannot yield a real value: its expression is
/// missing or does not parse.  Such a column degrades to `0`, never a fault.
pub open spec fn needs_warning(c: ColumnDef) -> bool {
    match c.compute_expression {
        Some(x) => parse_expr_full(x@) is None,
        None => true,
    }
}

/// The keys of the live computed columns that degrade to `0`, in column
/// order.
pub open spec fn warning_keys(cols: Seq<ColumnDef>) -> Seq<String>
    decreases cols.len(),
{
    if cols.len() == 0 {
        Seq::empty()
    } else {
        let rest = warning_keys(cols.drop_last());
        let c = cols.last();
        if is_live(c) && c.ctype == ColumnType::Computed && needs_warning(c) {
            rest.push(c.key)
        } else {
            rest
        }
    }
}

/// The non-fatal schema warnings of one snapshot: the keys of the live
/// computed columns whose expression is missing or malformed.
#[verifier::loop_isolation(false)]
pub fn schema_warnings(registry: &Registry) -> (r: Vec<String>)
    ensures
        r@ == warning_keys(registry.columns@),
{
    let mut out: Vec<String> = Vec::new();
    let mut i: usize = 0;
    proof {
        assert(warning_keys(registry.columns@.subrange(0, 0)) =~= Seq::<String>::empty());
        assert(out@ =~= warning_keys(registry.columns@.subrange(0, 0)));
    }
    while i < registry.columns.len()
        invariant
            i <= registry.columns@.len(),
            out@ == warning_keys(registry.columns@.subrange(0, i as int)),
        decreases registry.columns@.len() - i,
    {
        let c = &registry.columns[i];
        if !c.archived && c.ctype == ColumnType::Computed {
            let bad = match &c.compute_expression {
                Some(x) => parse_expression(x.as_str()).is_none(),
                None => true,
            };
            if bad {
                out.push(c.key.clone());
            }
        }
        proof {
            assert(registry.columns@.subrange(0, i as int + 1).drop_last() =~= registry.columns@
                .subrange(0, i as int));
            assert(registry.columns@.subrange(0, i as int + 1).last() == registry.columns@[
                i as int]);
        }
        i += 1;
    }
    proof {
        assert(registry.columns@.subrange(0, registry.columns@.len() as int) =~= registry
            .columns@);
    }
    out
}

} // verus!

