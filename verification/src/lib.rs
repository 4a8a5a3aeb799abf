//! A schema-driven table formatting engine.
//!
//! The columns of the table are not fixed at build time: they are described
//! by metadata records held in a [`schema::Registry`] snapshot, including
//! derived ("computed") columns whose values come from small arithmetic
//! expressions over other columns.  Cell and row highlighting is driven by
//! user-authored [`rules::FormattingRule`]s, each guarded by a nested AND/OR
//! [`condition::ConditionTree`] that is evaluated against a row's resolved
//! values; overlapping matches resolve by priority.  Condition trees travel
//! to and from persistence in a JSON-shaped wire text ([`wire`]), and the
//! round trip is proved lossless.
//!
//! Evaluation is pure: a style is a function of the row snapshot, the
//! registry snapshot and the rule-set snapshot alone, and malformed input
//! (an unknown column, an unknown operator, a bad expression) degrades to
//! "no value" or "no match", never to a fault.

pub mod text;
pub mod value;
pub mod row;
pub mod condition;
pub mod rules;
pub mod schema;
pub mod compute;
pub mod wire;
