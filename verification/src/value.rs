//! Tagged semantic cell values: string, number, boolean, calendar day,
//! instant, and the absent/null value.

use vstd::prelude::*;

verus! {

/// A resolved cell value.
///
/// Calendar days carry day precision and are encoded as the number
/// `year * 10_000 + month * 100 + day`, which orders exactly as the calendar
/// does.  Instants carry a position on a linear timeline (for example,
/// milliseconds since an epoch).
#[derive(Debug, PartialEq)]
pub enum Value {
    /// No value: SQL null, or a field the storage never set.
    Null,
    /// A text value, compared case-sensitively.
    Text(String),
    /// An integer number.
    Num(i64),
    /// A boolean.
    Flag(bool),
    /// A calendar day, encoded `yyyymmdd`.
    Day(u32),
    /// An instant on a linear timeline.
    Stamp(i64),
}

/// The mathematical shape of a [`Value`]: text becomes its character
/// sequence.
pub enum ValueView {
    Null,
    Text(Seq<char>),
    Num(i64),
    Flag(bool),
    Day(u32),
    Stamp(i64),
}

impl View for Value {
    type V = ValueView;

    open spec fn view(&self) -> ValueView {
        match self {
            Value::Null => ValueView::Null,
            Value::Text(s) => ValueView::Text(s@),
            Value::Num(n) => ValueView::Num(*n),
            Value::Flag(b) => ValueView::Flag(*b),
            Value::Day(d) => ValueView::Day(*d),
            Value::Stamp(t) => ValueView::Stamp(*t),
        }
    }
}

impl Value {
    /// A copy with the same view.
    pub fn dup(&self) -> (r: Value)
        ensures
            r@ == self@,
    {
        match self {
            Value::Null => Value::Null,
            Value::Text(s) => Value::Text(s.clone()),
            Value::Num(n) => Value::Num(*n),
            Value::Flag(b) => Value::Flag(*b),
            Value::Day(d) => Value::Day(*d),
            Value::Stamp(t) => Value::Stamp(*t),
        }
    }
}

/// What `empty` / `notEmpty` test: absence (null) or the empty string —
/// never zero and never `false`.
pub open spec fn is_blank(v: ValueView) -> bool {
    match v {
        ValueView::Null => true,
        ValueView::Text(s) => s.len() == 0,
        _ => false,
    }
}

/// Decides [`is_blank`].
pub fn blank(v: &Value) -> (r: bool)
    ensures
        r == is_blank(v@),
{
    match v {
        Value::Null => true,
        Value::Text(s) => s.as_str().is_empty(),
        _ => false,
    }
}

/// A decimal digit.
pub open spec fn is_digit(c: char) -> bool {
    '0' <= c && c <= '9'
}

/// The numeric value of a decimal digit.
pub open spec fn digit_val(c: char) -> int {
    c as int - 48
}

/// The text has the exact shape `YYYY-MM-DD`.
pub open spec fn date_text(s: Seq<char>) -> bool {
    &&& s.len() == 10
    &&& is_digit(s[0])
    &&& is_digit(s[1])
    &&& is_digit(s[2])
    &&& is_digit(s[3])
    &&& s[4] == '-'
    &&& is_digit(s[5])
    &&& is_digit(s[6])
    &&& s[7] == '-'
    &&& is_digit(s[8])
    &&& is_digit(s[9])
}

/// The day code `yyyymmdd` named by a `YYYY-MM-DD` text.
pub open spec fn date_code(s: Seq<char>) -> int {
    digit_val(s[0]) * 10000000 + digit_val(s[1]) * 1000000 + digit_val(s[2]) * 100000 + digit_val(
        s[3],
    ) * 10000 + digit_val(s[5]) * 1000 + digit_val(s[6]) * 100 + digit_val(s[8]) * 10 + digit_val(
        s[9],
    )
}

fn digit_of(c: char) -> (r: u32)
    requires
        is_digit(c),
    ensures
        r == digit_val(c),
{
    (c as u32) - 48
}

fn digit_at(v: &Vec<char>, i: usize) -> (r: Option<u32>)
    requires
        i < v@.len(),
    ensures
        r matches Some(d) ==> is_digit(v@[i as int]) && d == digit_val(v@[i as int]),
        r is None ==> !is_digit(v@[i as int]),
{
    let c = v[i];
    if '0' <= c && c <= '9' {
        Some(digit_of(c))
    } else {
        None
    }
}

/// Reads a `YYYY-MM-DD` text as a day code; any other shape is refused.
pub fn parse_date_code(v: &Vec<char>) -> (r: Option<u32>)
    ensures
        date_text(v@) ==> r == Some(date_code(v@) as u32),
        !date_text(v@) ==> r is None,
{
    if v.len() != 10 {
        return None;
    }
    if !(v[4] == '-' && v[7] == '-') {
        return None;
    }
    let d0 = digit_at(v, 0);
    let d1 = digit_at(v, 1);
    let d2 = digit_at(v, 2);
    let d3 = digit_at(v, 3);
    let d5 = digit_at(v, 5);
    let d6 = digit_at(v, 6);
    let d8 = digit_at(v, 8);
    let d9 = digit_at(v, 9);
    match (d0, d1, d2, d3, d5, d6, d8, d9) {
        (
            Some(a0),
            Some(a1),
            Some(a2),
            Some(a3),
            Some(a5),
            Some(a6),
            Some(a8),
            Some(a9),
        ) => Some(
            a0 * 10000000 + a1 * 1000000 + a2 * 100000 + a3 * 10000 + a5 * 1000 + a6 * 100 + a8
                * 10 + a9,
        ),
        _ => None,
    }
}

} // verus!
