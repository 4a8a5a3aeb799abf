//! The condition-tree wire format: `{"logic":"AND","conditions":[...]}` for
//! internal nodes and `{"column":...,"operator":...,"value":...}` for
//! leaves, written without insignificant blanks.  The writer emits the
//! canonical form; the reader accepts it back, and the round-trip law is
//! proved: a well-formed tree survives writing and reading unchanged, so it
//! evaluates identically on every row.

use vstd::prelude::*;
use crate::condition::{ConditionTree, Logic, Operator, OperatorView, TreeView, eval_tree};
use crate::row::CellsView;
use crate::text::{chars_vec, string_of_chars};
use crate::value::{Value, ValueView, digit_val, is_digit};

verus! {

/// One character of text, escaped for the wire: quote and backslash get a
/// backslash, everything else stands for itself.
pub open spec fn esc_char(c: char) -> Seq<char> {
    if c == '"' || c == '\\' {
        seq!['\\', c]
    } else {
        seq![c]
    }
}

/// A text, escaped for the wire.
pub open spec fn esc(s: Seq<char>) -> Seq<char>
    decreases s.len(),
{
    if s.len() == 0 {
        Seq::empty()
    } else {
        esc_char(s[0]) + esc(s.drop_first())
    }
}

proof fn lemma_esc_push(s: Seq<char>, c: char)
    ensures
        esc(s.push(c)) == esc(s) + esc_char(c),
    decreases s.len(),
{
    if s.len() == 0 {
        let t = s.push(c);
        assert(t[0] == c);
        assert(t.drop_first() =~= Seq::<char>::empty());
        assert(esc(t.drop_first()) =~= Seq::<char>::empty());
        assert(esc(t) == esc_char(c) + esc(t.drop_first()));
        assert(esc(s) =~= Seq::<char>::empty());
        assert(esc(t) =~= esc(s) + esc_char(c));
    } else {
        assert(s.push(c)[0] == s[0]);
        assert(s.push(c).drop_first() =~= s.drop_first().push(c));
        lemma_esc_push(s.drop_first(), c);
        assert(esc(s.push(c)) =~= esc(s) + esc_char(c));
    }
}

/// The wire name of an operator.
pub open spec fn op_name(op: OperatorView) -> Seq<char> {
    match op {
        OperatorView::Eq => seq!['e', 'q'],
        OperatorView::Ne => seq!['n', 'e', 'q'],
        OperatorView::Lt => seq!['l', 't'],
        OperatorView::Le => seq!['l', 't', 'e'],
        OperatorView::Gt => seq!['g', 't'],
        OperatorView::Ge => seq!['g', 't', 'e'],
        OperatorView::IsEmpty => seq!['e', 'm', 'p', 't', 'y'],
        OperatorView::NotEmpty => seq!['n', 'o', 't', 'E', 'm', 'p', 't', 'y'],
        OperatorView::Has => seq!['c', 'o', 'n', 't', 'a', 'i', 'n', 's'],
        OperatorView::Other(s) => s,
    }
}

/// The operator a wire name denotes; a name outside the closed set stays an
/// `Other`, which never matches.
pub open spec fn op_of_name(s: Seq<char>) -> OperatorView {
    if s == op_name(OperatorView::Eq) {
        OperatorView::Eq
    } else if s == op_name(OperatorView::Ne) {
        OperatorView::Ne
    } else if s == op_name(OperatorView::Lt) {
        OperatorView::Lt
    } else if s == op_name(OperatorView::Le) {
        OperatorView::Le
    } else if s == op_name(OperatorView::Gt) {
        OperatorView::Gt
    } else if s == op_name(OperatorView::Ge) {
        OperatorView::Ge
    } else if s == op_name(OperatorView::IsEmpty) {
        OperatorView::IsEmpty
    } else if s == op_name(OperatorView::NotEmpty) {
        OperatorView::NotEmpty
    } else if s == op_name(OperatorView::Has) {
        OperatorView::Has
    } else {
        OperatorView::Other(s)
    }
}

/// The decimal digits of a non-negative number, most significant first.
pub open spec fn dec_digits(n: int) -> Seq<char>
    decreases n,
{
    if n < 10 {
        seq![digit_char(if n < 0 { 0 } else { n })]
    } else {
        dec_digits(n / 10) + seq![digit_char(n % 10)]
    }
}

/// The digit character for a value in `0 ..= 9`.
pub open spec fn digit_char(d: int) -> char {
    ((48 + d) as u8) as char
}

/// The wire text of an integer.
pub open spec fn ser_i64(n: i64) -> Seq<char> {
    if n >= 0 {
        dec_digits(n as int)
    } else {
        seq!['-'] + dec_digits(-(n as int))
    }
}

/// The value of a digit run, most significant first.
pub open spec fn digits_val(s: Seq<char>) -> int
    decreases s.len(),
{
    if s.len() == 0 {
        0
    } else {
        digits_val(s.drop_last()) * 10 + digit_val(s.last())
    }
}

/// Powers of ten.
pub open spec fn pow10(k: nat) -> int
    decreases k,
{
    if k == 0 {
        1
    } else {
        10 * pow10((k - 1) as nat)
    }
}

proof fn lemma_dec_digits_shape(n: int)
    requires
        n >= 0,
    ensures
        dec_digits(n).len() >= 1,
        forall|i: int| 0 <= i < dec_digits(n).len() ==> is_digit(#[trigger] dec_digits(n)[i]),
        digits_val(dec_digits(n)) == n,
        n < pow10(dec_digits(n).len() as nat),
    decreases n,
{
    if n < 10 {
        assert(is_digit(digit_char(n)));
        assert(digit_val(digit_char(n)) == n);
        assert(dec_digits(n).last() == digit_char(n));
        assert(dec_digits(n).drop_last() =~= Seq::<char>::empty());
        assert(digits_val(Seq::<char>::empty()) == 0);
        assert(digits_val(dec_digits(n)) == digit_val(digit_char(n)));
        assert(pow10(0) == 1);
        assert(pow10(1) == 10);
    } else {
        lemma_dec_digits_shape(n / 10);
        let a = dec_digits(n / 10);
        let whole = dec_digits(n);
        assert(whole == a + seq![digit_char(n % 10)]);
        assert(whole.drop_last() =~= a);
        assert(whole.last() == digit_char(n % 10));
        assert(0 <= n % 10 < 10);
        assert(is_digit(digit_char(n % 10)));
        assert(digit_val(digit_char(n % 10)) == n % 10);
        assert(digits_val(whole) == digits_val(a) * 10 + n % 10);
        assert(digits_val(whole) == n);
        assert(forall|i: int| 0 <= i < a.len() ==> whole[i] == a[i]);
        assert(whole.len() == a.len() + 1);
        assert(pow10(whole.len() as nat) == 10 * pow10(a.len() as nat));
        assert(n / 10 < pow10(a.len() as nat));
        assert(n < 10 * (n / 10) + 10);
    }
}

/// The first position at or after `pos` that does not hold a digit.
pub open spec fn digits_end(s: Seq<char>, pos: int) -> int
    decreases s.len() - pos,
{
    if 0 <= pos < s.len() && is_digit(s[pos]) {
        digits_end(s, pos + 1)
    } else {
        pos
    }
}

proof fn lemma_digits_end_at(s: Seq<char>, pos: int, m: int)
    requires
        0 <= pos,
        0 <= m,
        pos + m <= s.len(),
        forall|i: int| pos <= i < pos + m ==> is_digit(#[trigger] s[i]),
        pos + m == s.len() || !is_digit(s[pos + m]),
    ensures
        digits_end(s, pos) == pos + m,
    decreases m,
{
    if m == 0 {
    } else {
        assert(is_digit(s[pos]));
        lemma_digits_end_at(s, pos + 1, m - 1);
    }
}

/// Reader for an integer: an optional minus sign and a digit run of at most
/// nineteen digits (enough for any 64-bit value) whose value is in range.
pub open spec fn sp_int(s: Seq<char>, pos: int) -> Option<(i64, int)> {
    if pos < 0 || pos >= s.len() {
        None
    } else {
        let neg = s[pos] == '-';
        let start = if neg {
            pos + 1
        } else {
            pos
        };
        let e = digits_end(s, start);
        if e == start || e - start > 19 {
            None
        } else {
            let v = digits_val(s.subrange(start, e));
            if neg {
                if v > 0x8000_0000_0000_0000 {
                    None
                } else {
                    Some((((-v) as i64), e))
                }
            } else {
                if v > 0x7fff_ffff_ffff_ffff {
                    None
                } else {
                    Some(((v as i64), e))
                }
            }
        }
    }
}

proof fn lemma_pow10_19()
    ensures
        pow10(19) == 10_000_000_000_000_000_000,
{
    assert(pow10(0) == 1);
    assert(pow10(1) == 10);
    assert(pow10(2) == 100);
    assert(pow10(3) == 1000);
    assert(pow10(4) == 10000);
    assert(pow10(5) == 100000);
    assert(pow10(6) == 1000000);
    assert(pow10(7) == 10000000);
    assert(pow10(8) == 100000000);
    assert(pow10(9) == 1000000000);
    assert(pow10(10) == 10000000000);
    assert(pow10(11) == 100000000000);
    assert(pow10(12) == 1000000000000);
    assert(pow10(13) == 10000000000000);
    assert(pow10(14) == 100000000000000);
    assert(pow10(15) == 1000000000000000);
    assert(pow10(16) == 10000000000000000);
    assert(pow10(17) == 100000000000000000);
    assert(pow10(18) == 1000000000000000000);
    assert(pow10(19) == 10000000000000000000);
}

proof fn lemma_pow10_mono(a: nat, b: nat)
    requires
        a <= b,
    ensures
        pow10(a) <= pow10(b),
        pow10(a) >= 1,
    decreases b,
{
    if a < b {
        lemma_pow10_mono(a, (b - 1) as nat);
    } else if b > 0 {
        lemma_pow10_mono((a - 1) as nat, (b - 1) as nat);
    }
}

proof fn lemma_dec_digits_len(n: int, k: nat)
    requires
        n >= 0,
        k >= 1,
        n < pow10(k),
    ensures
        dec_digits(n).len() <= k,
    decreases n,
{
    if n >= 10 {
        assert(pow10(k) == 10 * pow10((k - 1) as nat));
        if k == 1 {
            assert(pow10(0) == 1);
            assert(pow10(1) == 10);
        }
        lemma_dec_digits_len(n / 10, (k - 1) as nat);
    }
}

/// Reading the written text of an integer gives the integer back, provided
/// the character that follows it is not a digit.
proof fn lemma_int_round(n: i64, s: Seq<char>, pos: int)
    requires
        0 <= pos,
        pos + ser_i64(n).len() <= s.len(),
        s.subrange(pos, pos + ser_i64(n).len()) == ser_i64(n),
        pos + ser_i64(n).len() == s.len() || !is_digit(s[pos + ser_i64(n).len()]),
    ensures
        sp_int(s, pos) == Some((n, pos + ser_i64(n).len())),
{
    let w = ser_i64(n);
    let mag: int = if n >= 0 {
        n as int
    } else {
        -(n as int)
    };
    let d = dec_digits(mag);
    lemma_dec_digits_shape(mag);
    lemma_pow10_19();
    assert(mag < pow10(19));
    lemma_dec_digits_len(mag, 19);
    let start: int = if n >= 0 {
        pos
    } else {
        pos + 1
    };
    assert forall|i: int| 0 <= i < w.len() implies s[pos + i] == #[trigger] w[i] by {
        assert(s.subrange(pos, pos + w.len())[i] == s[pos + i]);
    }
    if n < 0 {
        assert(w == seq!['-'] + d);
        assert(w[0] == '-');
        assert(s[pos] == '-');
    }
    assert forall|i: int| 0 <= i < d.len() implies s[start + i] == #[trigger] d[i] by {
        if n >= 0 {
            assert(w[i] == d[i]);
        } else {
            assert(w[i + 1] == (seq!['-'] + d)[i + 1]);
            assert((seq!['-'] + d)[i + 1] == d[i]);
        }
    }
    assert forall|i: int| start <= i < start + d.len() implies is_digit(#[trigger] s[i]) by {
        assert(s[i] == d[i - start]);
        assert(is_digit(d[i - start]));
    }
    assert(start + d.len() == pos + w.len());
    lemma_digits_end_at(s, start, d.len() as int);
    assert(s.subrange(start, start + d.len()) =~= d);
    if n >= 0 {
        assert(is_digit(s[pos]));
        assert(s[pos] != '-');
        assert(digits_end(s, pos) == pos + d.len());
        assert(digits_val(s.subrange(pos, pos + d.len())) == mag);
        assert(mag <= 0x7fff_ffff_ffff_ffff);
    } else {
        assert(mag <= 0x8000_0000_0000_0000);
        assert(digits_end(s, start) == start + d.len());
        assert(digits_val(s.subrange(start, start + d.len())) == mag);
        assert(((-mag) as i64) == n);
    }
}

/// `{"logic":"AND","conditions":[`
pub open spec fn kw_and_open() -> Seq<char> {
    seq!['{', '"', 'l', 'o', 'g', 'i', 'c', '"', ':', '"', 'A', 'N', 'D', '"', ',', '"', 'c', 'o', 'n', 'd', 'i', 't', 'i', 'o', 'n', 's', '"', ':', '[']
}

/// `{"logic":"OR","conditions":[`
pub open spec fn kw_or_open() -> Seq<char> {
    seq!['{', '"', 'l', 'o', 'g', 'i', 'c', '"', ':', '"', 'O', 'R', '"', ',', '"', 'c', 'o', 'n', 'd', 'i', 't', 'i', 'o', 'n', 's', '"', ':', '[']
}

/// `{"column":"`
pub open spec fn kw_col_open() -> Seq<char> {
    seq!['{', '"', 'c', 'o', 'l', 'u', 'm', 'n', '"', ':', '"']
}

/// `,"operator":"`
pub open spec fn kw_op_open() -> Seq<char> {
    seq![',', '"', 'o', 'p', 'e', 'r', 'a', 't', 'o', 'r', '"', ':', '"']
}

/// `,"value":`
pub open spec fn kw_val_open() -> Seq<char> {
    seq![',', '"', 'v', 'a', 'l', 'u', 'e', '"', ':']
}

pub open spec fn kw_null() -> Seq<char> {
    seq!['n', 'u', 'l', 'l']
}

pub open spec fn kw_true() -> Seq<char> {
    seq!['t', 'r', 'u', 'e']
}

pub open spec fn kw_false() -> Seq<char> {
    seq!['f', 'a', 'l', 's', 'e']
}

/// The wire text of a leaf literal.  A calendar day or an instant is
/// written as its number; reading it back gives a plain number, which is
/// why [`lit_wf`] excludes the two from the round-trip law.
pub open spec fn ser_lit(v: ValueView) -> Seq<char> {
    match v {
        ValueView::Null => kw_null(),
        ValueView::Flag(b) => if b {
            kw_true()
        } else {
            kw_false()
        },
        ValueView::Num(n) => ser_i64(n),
        ValueView::Text(t) => seq!['"'] + esc(t) + seq!['"'],
        ValueView::Day(d) => ser_i64(d as i64),
        ValueView::Stamp(t) => ser_i64(t),
    }
}

/// The canonical wire text of a tree.
pub open spec fn ser_tree(t: TreeView) -> Seq<char>
    decreases t,
{
    match t {
        TreeView::Branch { logic, children } => (if logic == Logic::And {
            kw_and_open()
        } else {
            kw_or_open()
        }) + ser_list(children) + seq![']', '}'],
        TreeView::Leaf { column, operator, literal } => kw_col_open() + esc(column) + seq!['"']
            + kw_op_open() + esc(op_name(operator)) + seq!['"'] + (match literal {
            Some(v) => kw_val_open() + ser_lit(v) + seq!['}'],
            None => seq!['}'],
        }),
    }
}

/// The children of a node on the wire, separated by commas.
pub open spec fn ser_list(cs: Seq<TreeView>) -> Seq<char>
    decreases cs,
{
    if cs.len() == 0 {
        Seq::empty()
    } else if cs.len() == 1 {
        ser_tree(cs[0])
    } else {
        ser_tree(cs[0]) + seq![','] + ser_list(cs.drop_first())
    }
}

/// The text `lit` stands at `pos` in `s`.
pub open spec fn match_at(s: Seq<char>, pos: int, lit: Seq<char>) -> bool {
    0 <= pos && pos + lit.len() <= s.len() && s.subrange(pos, pos + lit.len()) == lit
}

/// Reader for the body of a quoted string, starting after the opening
/// quote; consumes the closing quote.  A backslash makes the next character
/// literal.
pub open spec fn sp_str_body(s: Seq<char>, pos: int) -> Option<(Seq<char>, int)>
    decreases s.len() - pos,
{
    if pos < 0 || pos >= s.len() {
        None
    } else if s[pos] == '"' {
        Some((Seq::empty(), pos + 1))
    } else if s[pos] == '\\' {
        if pos + 1 < s.len() {
            match sp_str_body(s, pos + 2) {
                Some((t, p)) => Some((seq![s[pos + 1]] + t, p)),
                None => None,
            }
        } else {
            None
        }
    } else {
        match sp_str_body(s, pos + 1) {
            Some((t, p)) => Some((seq![s[pos]] + t, p)),
            None => None,
        }
    }
}

/// Reader for a leaf literal.
pub open spec fn sp_lit(s: Seq<char>, pos: int) -> Option<(ValueView, int)> {
    if pos < 0 || pos >= s.len() {
        None
    } else if match_at(s, pos, kw_null()) {
        Some((ValueView::Null, pos + 4))
    } else if match_at(s, pos, kw_true()) {
        Some((ValueView::Flag(true), pos + 4))
    } else if match_at(s, pos, kw_false()) {
        Some((ValueView::Flag(false), pos + 5))
    } else if s[pos] == '"' {
        match sp_str_body(s, pos + 1) {
            Some((t, p)) => Some((ValueView::Text(t), p)),
            None => None,
        }
    } else {
        match sp_int(s, pos) {
            Some((n, p)) => Some((ValueView::Num(n), p)),
            None => None,
        }
    }
}

/// Reader for one node.  The `depth` budget guards against pathological
/// nesting: a tree deeper than the budget is a parse failure, never a
/// crash.
pub open spec fn sp_node(s: Seq<char>, pos: int, depth: nat) -> Option<(TreeView, int)>
    decreases depth, s.len() - pos, 0int,
{
    if depth == 0 {
        None
    } else if match_at(s, pos, kw_and_open()) {
        match sp_list(s, pos + kw_and_open().len(), depth) {
            Some((cs, p2)) => if p2 < s.len() && s[p2] == '}' {
                Some((TreeView::Branch { logic: Logic::And, children: cs }, p2 + 1))
            } else {
                None
            },
            None => None,
        }
    } else if match_at(s, pos, kw_or_open()) {
        match sp_list(s, pos + kw_or_open().len(), depth) {
            Some((cs, p2)) => if p2 < s.len() && s[p2] == '}' {
                Some((TreeView::Branch { logic: Logic::Or, children: cs }, p2 + 1))
            } else {
                None
            },
            None => None,
        }
    } else if match_at(s, pos, kw_col_open()) {
        match sp_str_body(s, pos + kw_col_open().len()) {
            Some((col, p1)) => if match_at(s, p1, kw_op_open()) {
                match sp_str_body(s, p1 + kw_op_open().len()) {
                    Some((opn, p2)) => {
                        let op = op_of_name(opn);
                        if p2 < s.len() && s[p2] == '}' {
                            Some(
                                (TreeView::Leaf { column: col, operator: op, literal: None }, p2
                                    + 1),
                            )
                        } else if match_at(s, p2, kw_val_open()) {
                            match sp_lit(s, p2 + kw_val_open().len()) {
                                Some((v, p3)) => if p3 < s.len() && s[p3] == '}' {
                                    Some(
                                        (TreeView::Leaf {
                                            column: col,
                                            operator: op,
                                            literal: Some(v),
                                        }, p3 + 1),
                                    )
                                } else {
                                    None
                                },
                                None => None,
                            }
                        } else {
                            None
                        }
                    },
                    None => None,
                }
            } else {
                None
            },
            None => None,
        }
    } else {
        None
    }
}

/// Reader for a node list up to and including the closing bracket.
pub open spec fn sp_list(s: Seq<char>, pos: int, depth: nat) -> Option<(Seq<TreeView>, int)>
    decreases depth, s.len() - pos, 1int,
{
    if depth == 0 || pos < 0 || pos >= s.len() {
        None
    } else if s[pos] == ']' {
        Some((Seq::empty(), pos + 1))
    } else {
        match sp_node(s, pos, (depth - 1) as nat) {
            Some((t, p2)) => {
                if p2 <= pos || p2 >= s.len() {
                    None
                } else if s[p2] == ',' {
                    match sp_list(s, p2 + 1, depth) {
                        Some((ts, p3)) => Some((seq![t] + ts, p3)),
                        None => None,
                    }
                } else if s[p2] == ']' {
                    Some((seq![t], p2 + 1))
                } else {
                    None
                }
            },
            None => None,
        }
    }
}

/// Wire-representable: operator names outside the closed set must not
/// collide with a canonical name, and a literal must be of a kind the wire
/// carries losslessly.
pub open spec fn lit_wf(v: ValueView) -> bool {
    match v {
        ValueView::Day(_) => false,
        ValueView::Stamp(_) => false,
        _ => true,
    }
}

/// See [`lit_wf`]; a tree with this shape survives the wire unchanged.
pub open spec fn wire_wf(t: TreeView) -> bool
    decreases t,
{
    match t {
        TreeView::Branch { children, .. } => wire_wf_list(children),
        TreeView::Leaf { operator, literal, .. } => op_of_name(op_name(operator)) == operator
            && (match literal {
            Some(v) => lit_wf(v),
            None => true,
        }),
    }
}

pub open spec fn wire_wf_list(cs: Seq<TreeView>) -> bool
    decreases cs,
{
    if cs.len() == 0 {
        true
    } else {
        wire_wf(cs[0]) && wire_wf_list(cs.drop_first())
    }
}

/// The nesting depth of a tree.
pub open spec fn depth_of(t: TreeView) -> nat
    decreases t,
{
    match t {
        TreeView::Leaf { .. } => 1,
        TreeView::Branch { children, .. } => 1 + depth_list(children),
    }
}

pub open spec fn depth_list(cs: Seq<TreeView>) -> nat
    decreases cs,
{
    if cs.len() == 0 {
        0
    } else if depth_of(cs[0]) > depth_list(cs.drop_first()) {
        depth_of(cs[0])
    } else {
        depth_list(cs.drop_first())
    }
}

/// The recursion budget of the reader.
pub const WIRE_DEPTH_LIMIT: u64 = 64;

/// The whole-text read: one node spanning the entire text.
pub open spec fn parse_wire(s: Seq<char>) -> Option<TreeView> {
    match sp_node(s, 0, WIRE_DEPTH_LIMIT as nat) {
        Some((t, p)) => if p == s.len() {
            Some(t)
        } else {
            None
        },
        None => None,
    }
}

proof fn lemma_window_index(s: Seq<char>, pos: int, w: Seq<char>)
    requires
        0 <= pos,
        pos + w.len() <= s.len(),
        s.subrange(pos, pos + w.len()) == w,
    ensures
        forall|i: int| 0 <= i < w.len() ==> s[pos + i] == #[trigger] w[i],
{
    assert forall|i: int| 0 <= i < w.len() implies s[pos + i] == #[trigger] w[i] by {
        assert(s.subrange(pos, pos + w.len())[i] == s[pos + i]);
    }
}

proof fn lemma_sub_window(s: Seq<char>, pos: int, w: Seq<char>, off: int, part: Seq<char>)
    requires
        0 <= pos,
        pos + w.len() <= s.len(),
        s.subrange(pos, pos + w.len()) == w,
        0 <= off,
        off + part.len() <= w.len(),
        forall|i: int| 0 <= i < part.len() ==> w[off + i] == #[trigger] part[i],
    ensures
        s.subrange(pos + off, pos + off + part.len()) == part,
{
    lemma_window_index(s, pos, w);
    assert forall|i: int|
        0 <= i < part.len() implies s.subrange(pos + off, pos + off + part.len())[i] == part[i] by {
        assert(s.subrange(pos + off, pos + off + part.len())[i] == s[pos + off + i]);
        assert(s[pos + off + i] == w[off + i]);
    }
    assert(s.subrange(pos + off, pos + off + part.len()) =~= part);
}

proof fn lemma_match_index(s: Seq<char>, pos: int, kw: Seq<char>, i: int)
    requires
        match_at(s, pos, kw),
        0 <= i < kw.len(),
    ensures
        s[pos + i] == kw[i],
{
    assert(s.subrange(pos, pos + kw.len())[i] == s[pos + i]);
}

/// Reading the written text of a string body (content plus closing quote)
/// gives the text back.
proof fn lemma_str_round(t: Seq<char>, s: Seq<char>, pos: int)
    requires
        0 <= pos,
        pos + esc(t).len() + 1 <= s.len(),
        s.subrange(pos, pos + esc(t).len() + 1) == esc(t).push('"'),
    ensures
        sp_str_body(s, pos) == Some((t, pos + esc(t).len() + 1)),
    decreases t.len(),
{
    let w = esc(t).push('"');
    lemma_window_index(s, pos, w);
    if t.len() == 0 {
        assert(esc(t).len() == 0);
        assert(s[pos] == w[0]);
        assert(w[0] == '"');
        assert(Seq::<char>::empty() =~= t);
    } else {
        let c = t[0];
        let rest = t.drop_first();
        assert(esc(t) == esc_char(c) + esc(rest));
        let k = esc_char(c).len() as int;
        assert forall|i: int|
            0 <= i < esc(rest).len() + 1 implies w[k + i] == #[trigger] esc(rest).push('"')[i] by {
            if i < esc(rest).len() {
                assert(w[k + i] == esc(t)[k + i]);
                assert(esc(t)[k + i] == esc(rest)[i]);
            } else {
                assert(w[k + i] == '"');
            }
        }
        lemma_sub_window(s, pos, w, k, esc(rest).push('"'));
        lemma_str_round(rest, s, pos + k);
        assert(s[pos] == w[0]);
        assert(w[0] == esc(t)[0]);
        assert(esc(t)[0] == esc_char(c)[0]);
        if c == '"' || c == '\\' {
            assert(esc_char(c) == seq!['\\', c]);
            assert(s[pos] == '\\');
            assert(s[pos + 1] == w[1]);
            assert(w[1] == esc(t)[1]);
            assert(esc(t)[1] == esc_char(c)[1]);
            assert(s[pos + 1] == c);
            assert(sp_str_body(s, pos + 2) == Some((rest, pos + esc(t).len() + 1)));
            assert(seq![c] + rest =~= t);
        } else {
            assert(esc_char(c) == seq![c]);
            assert(s[pos] == c);
            assert(sp_str_body(s, pos + 1) == Some((rest, pos + esc(t).len() + 1)));
            assert(seq![c] + rest =~= t);
        }
    }
}

/// Reading the written text of a wire-representable literal gives the
/// literal back, provided the character that follows it is not a digit.
proof fn lemma_lit_round(v: ValueView, s: Seq<char>, pos: int)
    requires
        lit_wf(v),
        0 <= pos,
        pos + ser_lit(v).len() <= s.len(),
        s.subrange(pos, pos + ser_lit(v).len()) == ser_lit(v),
        pos + ser_lit(v).len() == s.len() || !is_digit(s[pos + ser_lit(v).len()]),
    ensures
        sp_lit(s, pos) == Some((v, pos + ser_lit(v).len())),
{
    let w = ser_lit(v);
    lemma_window_index(s, pos, w);
    match v {
        ValueView::Null => {
            assert(s.subrange(pos, pos + 4) =~= kw_null());
        },
        ValueView::Flag(b) => {
            if b {
                assert(s[pos] == w[0]);
                assert(w[0] == 't');
                if match_at(s, pos, kw_null()) {
                    lemma_match_index(s, pos, kw_null(), 0);
                }
                assert(s.subrange(pos, pos + 4) =~= kw_true());
            } else {
                assert(s[pos] == w[0]);
                assert(w[0] == 'f');
                if match_at(s, pos, kw_null()) {
                    lemma_match_index(s, pos, kw_null(), 0);
                }
                if match_at(s, pos, kw_true()) {
                    lemma_match_index(s, pos, kw_true(), 0);
                }
                assert(s.subrange(pos, pos + 5) =~= kw_false());
            }
        },
        ValueView::Num(n) => {
            let mag: int = if n >= 0 {
                n as int
            } else {
                -(n as int)
            };
            lemma_dec_digits_shape(mag);
            assert(s[pos] == w[0]);
            if n >= 0 {
                assert(w[0] == dec_digits(mag)[0]);
                assert(is_digit(w[0]));
            } else {
                assert(w[0] == '-');
            }
            assert(s[pos] != 'n' && s[pos] != 't' && s[pos] != 'f' && s[pos] != '"');
            if match_at(s, pos, kw_null()) {
                lemma_match_index(s, pos, kw_null(), 0);
            }
            if match_at(s, pos, kw_true()) {
                lemma_match_index(s, pos, kw_true(), 0);
            }
            if match_at(s, pos, kw_false()) {
                lemma_match_index(s, pos, kw_false(), 0);
            }
            lemma_int_round(n, s, pos);
        },
        ValueView::Text(t) => {
            assert(s[pos] == w[0]);
            assert(w[0] == (seq!['"'] + esc(t))[0]);
            assert(w[0] == '"');
            if match_at(s, pos, kw_null()) {
                lemma_match_index(s, pos, kw_null(), 0);
            }
            if match_at(s, pos, kw_true()) {
                lemma_match_index(s, pos, kw_true(), 0);
            }
            if match_at(s, pos, kw_false()) {
                lemma_match_index(s, pos, kw_false(), 0);
            }
            assert forall|i: int|
                0 <= i < esc(t).len() + 1 implies w[1 + i] == #[trigger] esc(t).push('"')[i] by {
                if i < esc(t).len() {
                    assert(w[1 + i] == (seq!['"'] + esc(t))[1 + i]);
                } else {
                    assert(w[1 + i] == '"');
                }
            }
            lemma_sub_window(s, pos, w, 1, esc(t).push('"'));
            lemma_str_round(t, s, pos + 1);
        },
        ValueView::Day(_) => {},
        ValueView::Stamp(_) => {},
    }
}

proof fn lemma_ser_tree_head(t: TreeView)
    ensures
        ser_tree(t).len() >= 2,
        ser_tree(t)[0] == '{',
{
    match t {
        TreeView::Branch { logic, children } => {
            if logic == Logic::And {
                assert(ser_tree(t)[0] == kw_and_open()[0]);
            } else {
                assert(ser_tree(t)[0] == kw_or_open()[0]);
            }
        },
        TreeView::Leaf { column, operator, literal } => {
            assert(ser_tree(t)[0] == kw_col_open()[0]);
        },
    }
}

/// Reading the written text of a well-formed node gives the node back.
#[verifier::rlimit(100)]
proof fn lemma_node_round(t: TreeView, s: Seq<char>, pos: int, depth: nat)
    requires
        wire_wf(t),
        0 <= pos,
        pos + ser_tree(t).len() <= s.len(),
        s.subrange(pos, pos + ser_tree(t).len()) == ser_tree(t),
        depth >= depth_of(t),
    ensures
        sp_node(s, pos, depth) == Some((t, pos + ser_tree(t).len())),
    decreases t,
{
    let w = ser_tree(t);
    lemma_window_index(s, pos, w);
    match t {
        TreeView::Branch { logic, children } => {
            let kw = if logic == Logic::And {
                kw_and_open()
            } else {
                kw_or_open()
            };
            let ll = ser_list(children);
            assert(w == kw + ll + seq![']', '}']);
            assert forall|i: int| 0 <= i < kw.len() implies w[i] == #[trigger] kw[i] by {
                assert(w[i] == (kw + ll)[i]);
            }
            lemma_sub_window(s, pos, w, 0, kw);
            assert(match_at(s, pos, kw));
            if logic != Logic::And {
                if match_at(s, pos, kw_and_open()) {
                    lemma_match_index(s, pos, kw_and_open(), 10);
                    assert(s[pos + 10] == w[10]);
                    assert(w[10] == kw[10]);
                }
            }
            assert forall|i: int|
                0 <= i < ll.len() + 1 implies w[kw.len() + i] == #[trigger] ll.push(']')[i] by {
                if i < ll.len() {
                    assert(w[kw.len() + i] == (kw + ll)[kw.len() + i]);
                } else {
                    assert(w[kw.len() + i] == seq![']', '}'][0]);
                }
            }
            lemma_sub_window(s, pos, w, kw.len() as int, ll.push(']'));
            lemma_list_round(children, s, pos + kw.len(), depth);
            let p2 = pos + kw.len() + ll.len() + 1;
            assert(s[p2] == w[kw.len() + ll.len() + 1int]);
            assert(w[kw.len() + ll.len() + 1int] == seq![']', '}'][1]);
            assert(s[p2] == '}');
        },
        TreeView::Leaf { column, operator, literal } => {
            let e1 = esc(column);
            let e2 = esc(op_name(operator));
            let tail: Seq<char> = match literal {
                Some(v) => kw_val_open() + ser_lit(v) + seq!['}'],
                None => seq!['}'],
            };
            assert(w == kw_col_open() + e1 + seq!['"'] + kw_op_open() + e2 + seq!['"'] + tail);
            let o2 = 11 + e1.len() as int;
            let o4 = o2 + 1 + 13;
            let o6 = o4 + e2.len() as int + 1;
            if match_at(s, pos, kw_and_open()) {
                lemma_match_index(s, pos, kw_and_open(), 2);
                assert(s[pos + 2] == w[2]);
                assert(w[2] == kw_col_open()[2]);
            }
            if match_at(s, pos, kw_or_open()) {
                lemma_match_index(s, pos, kw_or_open(), 2);
                assert(s[pos + 2] == w[2]);
                assert(w[2] == kw_col_open()[2]);
            }
            assert forall|i: int| 0 <= i < 11 implies w[i] == #[trigger] kw_col_open()[i] by {}
            lemma_sub_window(s, pos, w, 0, kw_col_open());
            assert(match_at(s, pos, kw_col_open()));
            assert forall|i: int|
                0 <= i < e1.len() + 1 implies w[11 + i] == #[trigger] e1.push('"')[i] by {}
            lemma_sub_window(s, pos, w, 11, e1.push('"'));
            lemma_str_round(column, s, pos + 11);
            let p1 = pos + 11 + e1.len() + 1;
            assert forall|i: int|
                0 <= i < 13 implies w[o2 + 1 + i] == #[trigger] kw_op_open()[i] by {}
            lemma_sub_window(s, pos, w, o2 + 1, kw_op_open());
            assert(match_at(s, p1, kw_op_open()));
            assert forall|i: int|
                0 <= i < e2.len() + 1 implies w[o4 + i] == #[trigger] e2.push('"')[i] by {}
            lemma_sub_window(s, pos, w, o4, e2.push('"'));
            lemma_str_round(op_name(operator), s, pos + o4);
            let p2 = pos + o6;
            assert(op_of_name(op_name(operator)) == operator);
            match literal {
                None => {
                    assert(s[p2] == w[o6]);
                    assert(w[o6] == '}');
                },
                Some(v) => {
                    assert(s[p2] == w[o6]);
                    assert(w[o6] == kw_val_open()[0]);
                    assert(s[p2] != '}');
                    assert forall|i: int|
                        0 <= i < 9 implies w[o6 + i] == #[trigger] kw_val_open()[i] by {}
                    lemma_sub_window(s, pos, w, o6, kw_val_open());
                    assert(match_at(s, p2, kw_val_open()));
                    let lv = ser_lit(v);
                    assert forall|i: int| 0 <= i < lv.len() implies w[o6 + 9 + i] == #[trigger] lv[i] by {}
                    lemma_sub_window(s, pos, w, o6 + 9, lv);
                    assert(s[o6 + 9 + lv.len() + pos] == w[o6 + 9 + lv.len()]);
                    assert(w[o6 + 9 + lv.len()] == '}');
                    assert(!is_digit('}'));
                    lemma_lit_round(v, s, pos + o6 + 9);
                    let p3 = pos + o6 + 9 + lv.len();
                    assert(s[p3] == '}');
                },
            }
        },
    }
}

/// Reading the written text of a well-formed node list (up to and
/// including the closing bracket) gives the list back.
proof fn lemma_list_round(cs: Seq<TreeView>, s: Seq<char>, pos: int, depth: nat)
    requires
        wire_wf_list(cs),
        0 <= pos,
        pos + ser_list(cs).len() + 1 <= s.len(),
        s.subrange(pos, pos + ser_list(cs).len() + 1) == ser_list(cs).push(']'),
        depth >= depth_list(cs) + 1,
    ensures
        sp_list(s, pos, depth) == Some((cs, pos + ser_list(cs).len() + 1)),
    decreases cs,
{
    let ll = ser_list(cs);
    let w = ll.push(']');
    lemma_window_index(s, pos, w);
    if cs.len() == 0 {
        assert(s[pos] == w[0]);
        assert(w[0] == ']');
        assert(Seq::<TreeView>::empty() =~= cs);
    } else {
        let l0 = ser_tree(cs[0]);
        lemma_ser_tree_head(cs[0]);
        assert(s[pos] == w[0]);
        if cs.len() == 1 {
            assert(w[0] == ll[0]);
            assert(ll[0] == l0[0]);
        } else {
            assert(ll == l0 + seq![','] + ser_list(cs.drop_first()));
            assert(w[0] == ll[0]);
            assert(ll[0] == l0[0]);
        }
        assert(s[pos] == '{');
        assert(s[pos] != ']');
        assert forall|i: int| 0 <= i < l0.len() implies w[i] == #[trigger] l0[i] by {
            if cs.len() == 1 {
                assert(w[i] == ll[i]);
            } else {
                assert(w[i] == ll[i]);
                assert(ll[i] == (l0 + seq![','])[i]);
            }
        }
        lemma_sub_window(s, pos, w, 0, l0);
        assert(depth_list(cs) >= depth_of(cs[0]));
        lemma_node_round(cs[0], s, pos, (depth - 1) as nat);
        let p2 = pos + l0.len();
        if cs.len() == 1 {
            assert(s[p2] == w[l0.len() as int]);
            assert(w[l0.len() as int] == ']');
            assert(seq![cs[0]] =~= cs);
        } else {
            let rest = cs.drop_first();
            let lr = ser_list(rest);
            assert(s[p2] == w[l0.len() as int]);
            assert(w[l0.len() as int] == ll[l0.len() as int]);
            assert(ll[l0.len() as int] == ',');
            assert(s[p2] != ']');
            assert forall|i: int|
                0 <= i < lr.len() + 1 implies w[l0.len() + 1 + i] == #[trigger] lr.push(']')[i] by {
                if i < lr.len() {
                    assert(w[l0.len() + 1 + i] == ll[l0.len() + 1 + i]);
                    assert(ll[l0.len() + 1 + i] == lr[i]);
                } else {
                    assert(w[l0.len() + 1 + i] == ']');
                }
            }
            lemma_sub_window(s, pos, w, l0.len() as int + 1, lr.push(']'));
            assert(depth_list(cs) >= depth_list(rest));
            lemma_list_round(rest, s, p2 + 1, depth);
            assert(seq![cs[0]] + rest =~= cs);
        }
    }
}

/// Round-trip law: a well-formed tree within the nesting budget survives
/// writing and reading unchanged — and therefore evaluates identically on
/// every row.
pub proof fn lemma_wire_round_trip(t: TreeView)
    requires
        wire_wf(t),
        depth_of(t) <= WIRE_DEPTH_LIMIT,
    ensures
        parse_wire(ser_tree(t)) == Some(t),
        forall|cells: CellsView| #[trigger]
            eval_tree(parse_wire(ser_tree(t)).unwrap(), cells) == eval_tree(t, cells),
{
    let s = ser_tree(t);
    assert(s.subrange(0, s.len() as int) =~= s);
    lemma_node_round(t, s, 0, WIRE_DEPTH_LIMIT as nat);
}

fn chars_eq(a: &Vec<char>, b: &Vec<char>) -> (r: bool)
    ensures
        r == (a@ == b@),
{
    if a.len() != b.len() {
        return false;
    }
    let mut i: usize = 0;
    while i < a.len()
        invariant
            a@.len() == b@.len(),
            i <= a@.len(),
            forall|j: int| 0 <= j < i ==> a@[j] == b@[j],
        decreases a@.len() - i,
    {
        if a[i] != b[i] {
            return false;
        }
        i += 1;
    }
    proof {
        assert(a@ =~= b@);
    }
    true
}

fn ex_match_at(s: &Vec<char>, pos: usize, kw: &Vec<char>) -> (r: bool)
    ensures
        r == match_at(s@, pos as int, kw@),
{
    if pos > s.len() || kw.len() > s.len() - pos {
        proof {
            if match_at(s@, pos as int, kw@) {
            }
        }
        return false;
    }
    let n = s.len();
    let mut i: usize = 0;
    while i < kw.len()
        invariant
            n == s@.len(),
            pos + kw@.len() <= s@.len(),
            i <= kw@.len(),
            forall|j: int| 0 <= j < i ==> s@[pos + j] == kw@[j],
        decreases kw@.len() - i,
    {
        if s[pos + i] != kw[i] {
            proof {
                if match_at(s@, pos as int, kw@) {
                    lemma_match_index(s@, pos as int, kw@, i as int);
                }
            }
            return false;
        }
        i += 1;
    }
    proof {
        assert forall|j: int|
            0 <= j < kw@.len() implies s@.subrange(pos as int, pos + kw@.len())[j] == kw@[j] by {
            assert(s@.subrange(pos as int, pos + kw@.len())[j] == s@[pos + j]);
        }
        assert(s@.subrange(pos as int, pos + kw@.len()) =~= kw@);
    }
    true
}

fn push_all(out: &mut Vec<char>, v: &Vec<char>)
    ensures
        final(out)@ == old(out)@ + v@,
{
    let mut i: usize = 0;
    while i < v.len()
        invariant
            i <= v@.len(),
            out@ == old(out)@ + v@.subrange(0, i as int),
        decreases v@.len() - i,
    {
        out.push(v[i]);
        proof {
            assert(old(out)@ + v@.subrange(0, i as int + 1) =~= (old(out)@ + v@.subrange(
                0,
                i as int,
            )).push(v@[i as int]));
        }
        i += 1;
    }
    proof {
        assert(v@.subrange(0, v@.len() as int) =~= v@);
    }
}

fn vec_and_open() -> (r: Vec<char>)
    ensures
        r@ == kw_and_open(),
{
    let r = chars_vec("{\"logic\":\"AND\",\"conditions\":[");
    proof {
        reveal_strlit("{\"logic\":\"AND\",\"conditions\":[");
        assert(r@ =~= kw_and_open());
    }
    r
}

fn vec_or_open() -> (r: Vec<char>)
    ensures
        r@ == kw_or_open(),
{
    let r = chars_vec("{\"logic\":\"OR\",\"conditions\":[");
    proof {
        reveal_strlit("{\"logic\":\"OR\",\"conditions\":[");
        assert(r@ =~= kw_or_open());
    }
    r
}

fn vec_col_open() -> (r: Vec<char>)
    ensures
        r@ == kw_col_open(),
{
    let r = chars_vec("{\"column\":\"");
    proof {
        reveal_strlit("{\"column\":\"");
        assert(r@ =~= kw_col_open());
    }
    r
}

fn vec_op_open() -> (r: Vec<char>)
    ensures
        r@ == kw_op_open(),
{
    let r = chars_vec(",\"operator\":\"");
    proof {
        reveal_strlit(",\"operator\":\"");
        assert(r@ =~= kw_op_open());
    }
    r
}

fn vec_val_open() -> (r: Vec<char>)
    ensures
        r@ == kw_val_open(),
{
    let r = chars_vec(",\"value\":");
    proof {
        reveal_strlit(",\"value\":");
        assert(r@ =~= kw_val_open());
    }
    r
}

fn vec_null() -> (r: Vec<char>)
    ensures
        r@ == kw_null(),
{
    let r = chars_vec("null");
    proof {
        reveal_strlit("null");
        assert(r@ =~= kw_null());
    }
    r
}

fn vec_true() -> (r: Vec<char>)
    ensures
        r@ == kw_true(),
{
    let r = chars_vec("true");
    proof {
        reveal_strlit("true");
        assert(r@ =~= kw_true());
    }
    r
}

fn vec_false() -> (r: Vec<char>)
    ensures
        r@ == kw_false(),
{
    let r = chars_vec("false");
    proof {
        reveal_strlit("false");
        assert(r@ =~= kw_false());
    }
    r
}

fn op_name_vec(op: &Operator) -> (r: Vec<char>)
    ensures
        r@ == op_name(op@),
{
    match op {
        Operator::Eq => {
            let r = chars_vec("eq");
            proof {
                reveal_strlit("eq");
                assert(r@ =~= op_name(op@));
            }
            r
        },
        Operator::Ne => {
            let r = chars_vec("neq");
            proof {
                reveal_strlit("neq");
                assert(r@ =~= op_name(op@));
            }
            r
        },
        Operator::Lt => {
            let r = chars_vec("lt");
            proof {
                reveal_strlit("lt");
                assert(r@ =~= op_name(op@));
            }
            r
        },
        Operator::Le => {
            let r = chars_vec("lte");
            proof {
                reveal_strlit("lte");
                assert(r@ =~= op_name(op@));
            }
            r
        },
        Operator::Gt => {
            let r = chars_vec("gt");
            proof {
                reveal_strlit("gt");
                assert(r@ =~= op_name(op@));
            }
            r
        },
        Operator::Ge => {
            let r = chars_vec("gte");
            proof {
                reveal_strlit("gte");
                assert(r@ =~= op_name(op@));
            }
            r
        },
        Operator::IsEmpty => {
            let r = chars_vec("empty");
            proof {
                reveal_strlit("empty");
                assert(r@ =~= op_name(op@));
            }
            r
        },
        Operator::NotEmpty => {
            let r = chars_vec("notEmpty");
            proof {
                reveal_strlit("notEmpty");
                assert(r@ =~= op_name(op@));
            }
            r
        },
        Operator::Has => {
            let r = chars_vec("contains");
            proof {
                reveal_strlit("contains");
                assert(r@ =~= op_name(op@));
            }
            r
        },
        Operator::Other(name) => chars_vec(name.as_str()),
    }
}

fn op_from_chars(v: &Vec<char>) -> (r: Operator)
    ensures
        r@ == op_of_name(v@),
{
    if chars_eq(v, &op_name_vec(&Operator::Eq)) {
        return Operator::Eq;
    }
    if chars_eq(v, &op_name_vec(&Operator::Ne)) {
        return Operator::Ne;
    }
    if chars_eq(v, &op_name_vec(&Operator::Lt)) {
        return Operator::Lt;
    }
    if chars_eq(v, &op_name_vec(&Operator::Le)) {
        return Operator::Le;
    }
    if chars_eq(v, &op_name_vec(&Operator::Gt)) {
        return Operator::Gt;
    }
    if chars_eq(v, &op_name_vec(&Operator::Ge)) {
        return Operator::Ge;
    }
    if chars_eq(v, &op_name_vec(&Operator::IsEmpty)) {
        return Operator::IsEmpty;
    }
    if chars_eq(v, &op_name_vec(&Operator::NotEmpty)) {
        return Operator::NotEmpty;
    }
    if chars_eq(v, &op_name_vec(&Operator::Has)) {
        return Operator::Has;
    }
    Operator::Other(string_of_chars(v))
}

fn push_esc_chars(out: &mut Vec<char>, v: &Vec<char>)
    ensures
        final(out)@ == old(out)@ + esc(v@),
{
    let mut i: usize = 0;
    proof {
        assert(esc(v@.subrange(0, 0)) =~= Seq::<char>::empty());
        assert(out@ =~= old(out)@ + esc(v@.subrange(0, 0)));
    }
    while i < v.len()
        invariant
            i <= v@.len(),
            out@ == old(out)@ + esc(v@.subrange(0, i as int)),
        decreases v@.len() - i,
    {
        let c = v[i];
        proof {
            lemma_esc_push(v@.subrange(0, i as int), v@[i as int]);
            assert(v@.subrange(0, i as int).push(v@[i as int]) =~= v@.subrange(0, i as int + 1));
        }
        if c == '"' || c == '\\' {
            out.push('\\');
            out.push(c);
            proof {
                assert(old(out)@ + esc(v@.subrange(0, i as int + 1)) =~= (old(out)@ + esc(
                    v@.subrange(0, i as int),
                )).push('\\').push(c));
            }
        } else {
            out.push(c);
            proof {
                assert(old(out)@ + esc(v@.subrange(0, i as int + 1)) =~= (old(out)@ + esc(
                    v@.subrange(0, i as int),
                )).push(c));
            }
        }
        i += 1;
    }
    proof {
        assert(v@.subrange(0, v@.len() as int) =~= v@);
    }
}

fn push_digits(n: u64, out: &mut Vec<char>)
    ensures
        final(out)@ == old(out)@ + dec_digits(n as int),
    decreases n,
{
    if n < 10 {
        let c = ((48 + n) as u8) as char;
        out.push(c);
        proof {
            assert(c == digit_char(n as int));
            assert(old(out)@ + dec_digits(n as int) =~= old(out)@.push(c));
        }
    } else {
        push_digits(n / 10, out);
        let c = ((48 + n % 10) as u8) as char;
        out.push(c);
        proof {
            assert(c == digit_char(n as int % 10));
            assert(old(out)@ + dec_digits(n as int) =~= (old(out)@ + dec_digits(
                n as int / 10,
            )).push(c));
        }
    }
}

fn push_int(out: &mut Vec<char>, n: i64)
    ensures
        final(out)@ == old(out)@ + ser_i64(n),
{
    if n >= 0 {
        push_digits(n as u64, out);
    } else {
        out.push('-');
        let m: u64 = if n == i64::MIN {
            9223372036854775808u64
        } else {
            (-n) as u64
        };
        proof {
            assert(m as int == -(n as int));
        }
        push_digits(m, out);
        proof {
            assert(old(out)@ + ser_i64(n) =~= old(out)@.push('-') + dec_digits(m as int));
        }
    }
}

fn push_lit(out: &mut Vec<char>, v: &Value)
    ensures
        final(out)@ == old(out)@ + ser_lit(v@),
{
    match v {
        Value::Null => {
            push_all(out, &vec_null());
        },
        Value::Flag(b) => {
            if *b {
                push_all(out, &vec_true());
            } else {
                push_all(out, &vec_false());
            }
        },
        Value::Num(n) => {
            push_int(out, *n);
        },
        Value::Text(t) => {
            out.push('"');
            push_esc_chars(out, &chars_vec(t.as_str()));
            out.push('"');
            proof {
                assert(old(out)@ + ser_lit(v@) =~= (old(out)@.push('"') + esc(t@)).push('"'));
            }
        },
        Value::Day(d) => {
            push_int(out, *d as i64);
        },
        Value::Stamp(ts) => {
            push_int(out, *ts);
        },
    }
}

proof fn lemma_ser_list_push(cs: Seq<TreeView>, x: TreeView)
    ensures
        ser_list(cs.push(x)) == if cs.len() == 0 {
            ser_tree(x)
        } else {
            ser_list(cs) + seq![','] + ser_tree(x)
        },
    decreases cs.len(),
{
    let t = cs.push(x);
    if cs.len() == 0 {
        assert(t.len() == 1);
        assert(t[0] == x);
    } else {
        assert(t[0] == cs[0]);
        assert(t.drop_first() =~= cs.drop_first().push(x));
        lemma_ser_list_push(cs.drop_first(), x);
        if cs.len() == 1 {
            assert(ser_list(t) =~= ser_list(cs) + seq![','] + ser_tree(x));
        } else {
            assert(ser_list(t) =~= ser_list(cs) + seq![','] + ser_tree(x));
        }
    }
}

fn write_node(t: &ConditionTree, out: &mut Vec<char>)
    ensures
        final(out)@ == old(out)@ + ser_tree(t@),
    decreases *t,
{
    match t {
        ConditionTree::Branch { logic, children } => {
            write_branch(*logic, children, out);
        },
        ConditionTree::Leaf { column, operator, literal } => {
            push_all(out, &vec_col_open());
            push_esc_chars(out, &chars_vec(column.as_str()));
            out.push('"');
            push_all(out, &vec_op_open());
            push_esc_chars(out, &op_name_vec(operator));
            out.push('"');
            match literal {
                Some(v) => {
                    push_all(out, &vec_val_open());
                    push_lit(out, v);
                    out.push('}');
                },
                None => {
                    out.push('}');
                },
            }
            proof {
                assert(final(out)@ =~= old(out)@ + ser_tree(t@));
            }
        },
    }
}

#[verifier::loop_isolation(false)]
fn write_branch(logic: Logic, children: &Vec<ConditionTree>, out: &mut Vec<char>)
    ensures
        final(out)@ == old(out)@ + ser_tree(
            TreeView::Branch { logic, children: crate::condition::abs_list(children@) },
        ),
    decreases *children,
{
    let ghost cs = crate::condition::abs_list(children@);
    proof {
        crate::condition::lemma_abs_list_len(children@);
    }
    match logic {
        Logic::And => push_all(out, &vec_and_open()),
        Logic::Or => push_all(out, &vec_or_open()),
    }
    let ghost base = out@;
    let mut i: usize = 0;
    proof {
        assert(ser_list(cs.subrange(0, 0)) =~= Seq::<char>::empty());
        assert(out@ =~= base + ser_list(cs.subrange(0, 0)));
    }
    while i < children.len()
        invariant
            i <= children@.len(),
            out@ == base + ser_list(cs.subrange(0, i as int)),
        decreases children@.len() - i,
    {
        if i > 0 {
            out.push(',');
        }
        write_node(&children[i], out);
        proof {
            crate::condition::lemma_abs_list_index(children@, i as int);
            lemma_ser_list_push(cs.subrange(0, i as int), cs[i as int]);
            assert(cs.subrange(0, i as int).push(cs[i as int]) =~= cs.subrange(0, i as int + 1));
            if i == 0 {
                assert(out@ =~= base + ser_list(cs.subrange(0, i as int + 1)));
            } else {
                assert(out@ =~= base + ser_list(cs.subrange(0, i as int + 1)));
            }
        }
        i += 1;
    }
    out.push(']');
    out.push('}');
    proof {
        assert(cs.subrange(0, cs.len() as int) =~= cs);
        assert(final(out)@ =~= old(out)@ + ser_tree(TreeView::Branch { logic, children: cs }));
    }
}

/// Writes the canonical wire text of a tree.
pub fn to_wire(t: &ConditionTree) -> (r: String)
    ensures
        r@ == ser_tree(t@),
{
    let mut out: Vec<char> = Vec::new();
    write_node(t, &mut out);
    proof {
        assert(out@ =~= ser_tree(t@));
    }
    string_of_chars(&out)
}

#[verifier::loop_isolation(false)]
fn ex_str_body(s: &Vec<char>, pos: usize) -> (r: Option<(Vec<char>, usize)>)
    requires
        pos <= s@.len(),
    ensures
        match (r, sp_str_body(s@, pos as int)) {
            (Some((t, p)), Some((tv, pv))) => t@ == tv && p as int == pv && p <= s@.len(),
            (None, None) => true,
            _ => false,
        },
    decreases s@.len() - pos,
{
    if pos >= s.len() {
        return None;
    }
    let c = s[pos];
    if c == '"' {
        let empty: Vec<char> = Vec::new();
        proof {
            assert(empty@ =~= Seq::<char>::empty());
        }
        Some((empty, pos + 1))
    } else if c == '\\' {
        if pos + 1 < s.len() {
            match ex_str_body(s, pos + 2) {
                Some((mut t, p)) => {
                    let ghost prev = t@;
                    let d = s[pos + 1];
                    t.insert(0, d);
                    proof {
                        assert(t@ =~= seq![s@[pos as int + 1]] + prev);
                    }
                    Some((t, p))
                },
                None => None,
            }
        } else {
            None
        }
    } else {
        match ex_str_body(s, pos + 1) {
            Some((mut t, p)) => {
                let ghost prev = t@;
                t.insert(0, c);
                proof {
                    assert(t@ =~= seq![s@[pos as int]] + prev);
                }
                Some((t, p))
            },
            None => None,
        }
    }
}

#[verifier::loop_isolation(false)]
fn ex_digits_end(s: &Vec<char>, pos: usize) -> (r: usize)
    requires
        pos <= s@.len(),
    ensures
        r == digits_end(s@, pos as int),
        pos <= r <= s@.len(),
        forall|j: int| pos <= j < r ==> is_digit(#[trigger] s@[j]),
    decreases s@.len() - pos,
{
    if pos < s.len() {
        let c = s[pos];
        if '0' <= c && c <= '9' {
            return ex_digits_end(s, pos + 1);
        }
    }
    pos
}

#[verifier::loop_isolation(false)]
fn ex_int(s: &Vec<char>, pos: usize) -> (r: Option<(i64, usize)>)
    requires
        pos <= s@.len(),
    ensures
        match (r, sp_int(s@, pos as int)) {
            (Some((n, p)), Some((nv, pv))) => n == nv && p as int == pv && p <= s@.len(),
            (None, None) => true,
            _ => false,
        },
{
    if pos >= s.len() {
        return None;
    }
    let neg = s[pos] == '-';
    let start = if neg {
        pos + 1
    } else {
        pos
    };
    let e = ex_digits_end(s, start);
    if e == start || e - start > 19 {
        return None;
    }
    let mut v: u64 = 0;
    let mut i = start;
    proof {
        assert(s@.subrange(start as int, start as int) =~= Seq::<char>::empty());
        assert(pow10(0) == 1);
    }
    while i < e
        invariant
            start <= i <= e,
            e - start <= 19,
            e <= s@.len(),
            forall|j: int| start <= j < e ==> is_digit(#[trigger] s@[j]),
            v == digits_val(s@.subrange(start as int, i as int)),
            v < pow10((i - start) as nat),
        decreases e - i,
    {
        proof {
            lemma_pow10_19();
            lemma_pow10_mono((i - start) as nat, 18);
            assert(pow10(19) == 10 * pow10(18));
        }
        let c = s[i];
        let d = ((c as u32) - 48) as u64;
        proof {
            assert(is_digit(s@[i as int]));
            assert(d as int == digit_val(s@[i as int]));
        }
        v = v * 10 + d;
        proof {
            assert(s@.subrange(start as int, i as int + 1).drop_last() =~= s@.subrange(
                start as int,
                i as int,
            ));
            assert(s@.subrange(start as int, i as int + 1).last() == s@[i as int]);
            assert(pow10((i + 1 - start) as nat) == 10 * pow10((i - start) as nat));
        }
        i += 1;
    }
    if neg {
        if v > 9223372036854775808u64 {
            None
        } else if v == 9223372036854775808u64 {
            proof {
                assert(((-(v as int)) as i64) == i64::MIN);
            }
            Some((i64::MIN, e))
        } else {
            proof {
                assert(((-(v as int)) as i64) == -(v as i64));
            }
            Some((-(v as i64), e))
        }
    } else {
        if v > 9223372036854775807u64 {
            None
        } else {
            Some((v as i64, e))
        }
    }
}

fn ex_lit(s: &Vec<char>, pos: usize) -> (r: Option<(Value, usize)>)
    requires
        pos <= s@.len(),
    ensures
        match (r, sp_lit(s@, pos as int)) {
            (Some((v, p)), Some((vv, pv))) => v@ == vv && p as int == pv && p <= s@.len(),
            (None, None) => true,
            _ => false,
        },
{
    if pos >= s.len() {
        return None;
    }
    if ex_match_at(s, pos, &vec_null()) {
        return Some((Value::Null, pos + 4));
    }
    if ex_match_at(s, pos, &vec_true()) {
        return Some((Value::Flag(true), pos + 4));
    }
    if ex_match_at(s, pos, &vec_false()) {
        return Some((Value::Flag(false), pos + 5));
    }
    if s[pos] == '"' {
        match ex_str_body(s, pos + 1) {
            Some((t, p)) => Some((Value::Text(string_of_chars(&t)), p)),
            None => None,
        }
    } else {
        match ex_int(s, pos) {
            Some((n, p)) => Some((Value::Num(n), p)),
            None => None,
        }
    }
}

#[verifier::loop_isolation(false)]
fn ex_node(s: &Vec<char>, pos: usize, depth: u64) -> (r: Option<(ConditionTree, usize)>)
    requires
        pos <= s@.len(),
    ensures
        match (r, sp_node(s@, pos as int, depth as nat)) {
            (Some((t, p)), Some((tv, pv))) => t@ == tv && p as int == pv && p <= s@.len(),
            (None, None) => true,
            _ => false,
        },
    decreases depth, s@.len() - pos, 0int,
{
    if depth == 0 {
        return None;
    }
    let n = s.len();
    let kwa = vec_and_open();
    let kwo = vec_or_open();
    if ex_match_at(s, pos, &kwa) {
        match ex_list(s, pos + kwa.len(), depth) {
            Some((cs, p2)) => {
                if p2 < n && s[p2] == '}' {
                    let t = ConditionTree::Branch { logic: Logic::And, children: cs };
                    Some((t, p2 + 1))
                } else {
                    None
                }
            },
            None => None,
        }
    } else if ex_match_at(s, pos, &kwo) {
        match ex_list(s, pos + kwo.len(), depth) {
            Some((cs, p2)) => {
                if p2 < n && s[p2] == '}' {
                    let t = ConditionTree::Branch { logic: Logic::Or, children: cs };
                    Some((t, p2 + 1))
                } else {
                    None
                }
            },
            None => None,
        }
    } else if ex_match_at(s, pos, &vec_col_open()) {
        match ex_str_body(s, pos + 11) {
            Some((colv, p1)) => {
                if ex_match_at(s, p1, &vec_op_open()) {
                    match ex_str_body(s, p1 + 13) {
                        Some((opv, p2)) => {
                            let column = string_of_chars(&colv);
                            let operator = op_from_chars(&opv);
                            if p2 < n && s[p2] == '}' {
                                let t = ConditionTree::Leaf { column, operator, literal: None };
                                Some((t, p2 + 1))
                            } else if ex_match_at(s, p2, &vec_val_open()) {
                                match ex_lit(s, p2 + 9) {
                                    Some((v, p3)) => {
                                        if p3 < n && s[p3] == '}' {
                                            let t = ConditionTree::Leaf {
                                                column,
                                                operator,
                                                literal: Some(v),
                                            };
                                            Some((t, p3 + 1))
                                        } else {
                                            None
                                        }
                                    },
                                    None => None,
                                }
                            } else {
                                None
                            }
                        },
                        None => None,
                    }
                } else {
                    None
                }
            },
            None => None,
        }
    } else {
        None
    }
}

#[verifier::loop_isolation(false)]
fn ex_list(s: &Vec<char>, pos: usize, depth: u64) -> (r: Option<(Vec<ConditionTree>, usize)>)
    requires
        pos <= s@.len(),
    ensures
        match (r, sp_list(s@, pos as int, depth as nat)) {
            (Some((v, p)), Some((cs, pv))) => crate::condition::abs_list(v@) == cs && p as int
                == pv && p <= s@.len(),
            (None, None) => true,
            _ => false,
        },
    decreases depth, s@.len() - pos, 1int,
{
    if depth == 0 || pos >= s.len() {
        return None;
    }
    if s[pos] == ']' {
        let empty: Vec<ConditionTree> = Vec::new();
        proof {
            assert(empty@ =~= Seq::<ConditionTree>::empty());
            assert(crate::condition::abs_list(empty@) =~= Seq::<TreeView>::empty());
        }
        return Some((empty, pos + 1));
    }
    match ex_node(s, pos, depth - 1) {
        Some((t, p2)) => {
            if p2 <= pos || p2 >= s.len() {
                return None;
            }
            if s[p2] == ',' {
                match ex_list(s, p2 + 1, depth) {
                    Some((mut ts, p3)) => {
                        let ghost prev = ts@;
                        let ghost tview = t@;
                        ts.insert(0, t);
                        proof {
                            assert(ts@[0] == ts@[0]);
                            assert(ts@.drop_first() =~= prev);
                            assert(crate::condition::abs_list(ts@) =~= seq![tview]
                                + crate::condition::abs_list(prev));
                        }
                        Some((ts, p3))
                    },
                    None => None,
                }
            } else if s[p2] == ']' {
                let ghost tview = t@;
                let mut v: Vec<ConditionTree> = Vec::new();
                v.push(t);
                proof {
                    assert(v@.drop_first() =~= Seq::<ConditionTree>::empty());
                    assert(crate::condition::abs_list(v@.drop_first()) =~= Seq::<
                        TreeView,
                    >::empty());
                    assert(crate::condition::abs_list(v@) =~= seq![tview]);
                }
                Some((v, p2 + 1))
            } else {
                None
            }
        },
        None => None,
    }
}

/// Reads a wire text; `None` for any text that is not the canonical wire
/// form of a tree within the nesting budget.
pub fn from_wire(src: &str) -> (r: Option<ConditionTree>)
    ensures
        match (r, parse_wire(src@)) {
            (Some(t), Some(tv)) => t@ == tv,
            (None, None) => true,
            _ => false,
        },
{
    let s = chars_vec(src);
    match ex_node(&s, 0, WIRE_DEPTH_LIMIT) {
        Some((t, p)) => {
            if p == s.len() {
                Some(t)
            } else {
                None
            }
        },
        None => None,
    }
}

} // verus!




