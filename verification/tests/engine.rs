use gridrules::compute::evaluate_computed_columns;
use gridrules::condition::{ConditionTree, Logic, Operator};
use gridrules::row::Row;
use gridrules::rules::{FormattingRule, Style, Target, resolve_cell_style, resolve_row_style};
use gridrules::schema::{ColumnDef, ColumnType, Registry};
use gridrules::value::Value;

fn col(key: &str, ctype: ColumnType, position: i64) -> ColumnDef {
    ColumnDef {
        key: key.to_string(),
        ctype,
        position,
        sort: 0,
        sort_position: 0,
        visible: true,
        archived: false,
        width: "auto".to_string(),
        align: "left".to_string(),
        filter: None,
        label: None,
        compute_expression: None,
    }
}

fn computed_col(key: &str, position: i64, expression: &str) -> ColumnDef {
    let mut c = col(key, ColumnType::Computed, position);
    c.compute_expression = Some(expression.to_string());
    c
}

fn work_registry() -> Registry {
    Registry::new(vec![
        col("count", ColumnType::Number, 0),
        col("machineWorking", ColumnType::Number, 1),
        col("programing", ColumnType::Number, 2),
        col("preparing", ColumnType::Number, 3),
        computed_col(
            "totalTime",
            4,
            "(count * machineWorking) + programing + preparing",
        ),
    ])
}

fn get_num(row: &Row, key: &str) -> Option<i64> {
    match row.get(&key.to_string()) {
        Some(Value::Num(n)) => Some(*n),
        _ => None,
    }
}

fn leaf(column: &str, operator: Operator, literal: Option<Value>) -> ConditionTree {
    ConditionTree::Leaf {
        column: column.to_string(),
        operator,
        literal,
    }
}

fn rule(id: i64, name: &str, tree: ConditionTree, priority: i64, background: &str) -> FormattingRule {
    FormattingRule {
        id,
        name: name.to_string(),
        target: Target::Row,
        column_key: None,
        condition: tree,
        style: Style {
            background_color: Some(background.to_string()),
            text_color: None,
            font_weight: None,
        },
        enabled: true,
        priority,
    }
}

#[test]
fn computed_total_time_full_row() {
    let mut row = Row::new();
    row.push("count".to_string(), Value::Num(5));
    row.push("machineWorking".to_string(), Value::Num(2));
    row.push("programing".to_string(), Value::Num(3));
    row.push("preparing".to_string(), Value::Num(1));
    let out = evaluate_computed_columns(&row, &work_registry());
    assert_eq!(get_num(&out, "totalTime"), Some(14));
}

#[test]
fn computed_total_time_null_coalesces_to_zero() {
    let mut row = Row::new();
    row.push("count".to_string(), Value::Null);
    row.push("machineWorking".to_string(), Value::Num(2));
    row.push("programing".to_string(), Value::Null);
    row.push("preparing".to_string(), Value::Num(1));
    let out = evaluate_computed_columns(&row, &work_registry());
    assert_eq!(get_num(&out, "totalTime"), Some(1));
}

#[test]
fn computed_absent_operand_counts_as_zero() {
    let mut row = Row::new();
    row.push("machineWorking".to_string(), Value::Num(2));
    row.push("preparing".to_string(), Value::Num(7));
    let out = evaluate_computed_columns(&row, &work_registry());
    assert_eq!(get_num(&out, "totalTime"), Some(7));
}

#[test]
fn computed_division_by_zero_yields_zero() {
    let reg = Registry::new(vec![
        col("count", ColumnType::Number, 0),
        col("machineWorking", ColumnType::Number, 1),
        computed_col("rate", 2, "count / machineWorking"),
    ]);
    let mut row = Row::new();
    row.push("count".to_string(), Value::Num(9));
    row.push("machineWorking".to_string(), Value::Num(0));
    let out = evaluate_computed_columns(&row, &reg);
    assert_eq!(get_num(&out, "rate"), Some(0));
}

#[test]
fn computed_unparseable_expression_yields_zero() {
    let reg = Registry::new(vec![
        col("count", ColumnType::Number, 0),
        computed_col("broken", 1, "count +"),
    ]);
    let mut row = Row::new();
    row.push("count".to_string(), Value::Num(9));
    let out = evaluate_computed_columns(&row, &reg);
    assert_eq!(get_num(&out, "broken"), Some(0));
}

#[test]
fn and_of_no_children_is_true() {
    let tree = ConditionTree::Branch {
        logic: Logic::And,
        children: vec![],
    };
    assert!(tree.evaluate(&Row::new()));
}

#[test]
fn or_of_no_children_is_false() {
    let tree = ConditionTree::Branch {
        logic: Logic::Or,
        children: vec![],
    };
    assert!(!tree.evaluate(&Row::new()));
}

#[test]
fn and_with_false_child_is_false() {
    let mut row = Row::new();
    row.push("a".to_string(), Value::Num(1));
    let tree = ConditionTree::Branch {
        logic: Logic::And,
        children: vec![
            leaf("a", Operator::Eq, Some(Value::Num(1))),
            leaf("a", Operator::Eq, Some(Value::Num(2))),
            leaf("a", Operator::Eq, Some(Value::Num(1))),
        ],
    };
    assert!(!tree.evaluate(&row));
}

#[test]
fn or_with_true_child_is_true() {
    let mut row = Row::new();
    row.push("a".to_string(), Value::Num(1));
    let tree = ConditionTree::Branch {
        logic: Logic::Or,
        children: vec![
            leaf("a", Operator::Eq, Some(Value::Num(2))),
            leaf("a", Operator::Eq, Some(Value::Num(1))),
            leaf("missing", Operator::Eq, Some(Value::Num(3))),
        ],
    };
    assert!(tree.evaluate(&row));
}

#[test]
fn unknown_column_fails_closed() {
    let mut row = Row::new();
    row.push("a".to_string(), Value::Num(1));
    assert!(!leaf("b", Operator::Eq, Some(Value::Num(1))).evaluate(&row));
    assert!(!leaf("b", Operator::IsEmpty, None).evaluate(&row));
}

#[test]
fn unknown_operator_fails_closed() {
    let mut row = Row::new();
    row.push("a".to_string(), Value::Num(1));
    let tree = leaf(
        "a",
        Operator::Other("approximately".to_string()),
        Some(Value::Num(1)),
    );
    assert!(!tree.evaluate(&row));
}

#[test]
fn date_against_non_date_text_fails_closed() {
    let mut row = Row::new();
    row.push("deadlineAt".to_string(), Value::Day(20260101));
    let tree = leaf("deadlineAt", Operator::Lt, Some(Value::Text("soon".to_string())));
    assert!(!tree.evaluate(&row));
}

#[test]
fn date_compares_as_calendar_date() {
    let mut row = Row::new();
    row.push("deadlineAt".to_string(), Value::Day(20251231));
    let lt = leaf(
        "deadlineAt",
        Operator::Lt,
        Some(Value::Text("2026-01-01".to_string())),
    );
    let eq = leaf(
        "deadlineAt",
        Operator::Eq,
        Some(Value::Text("2025-12-31".to_string())),
    );
    assert!(lt.evaluate(&row));
    assert!(eq.evaluate(&row));
}

#[test]
fn empty_and_not_empty_test_blankness_not_zero() {
    let mut row = Row::new();
    row.push("a".to_string(), Value::Null);
    row.push("b".to_string(), Value::Text(String::new()));
    row.push("c".to_string(), Value::Num(0));
    row.push("d".to_string(), Value::Flag(false));
    assert!(leaf("a", Operator::IsEmpty, None).evaluate(&row));
    assert!(leaf("b", Operator::IsEmpty, None).evaluate(&row));
    assert!(!leaf("c", Operator::IsEmpty, None).evaluate(&row));
    assert!(!leaf("d", Operator::IsEmpty, None).evaluate(&row));
    assert!(leaf("c", Operator::NotEmpty, None).evaluate(&row));
}

#[test]
fn text_contains_and_order() {
    let mut row = Row::new();
    row.push("name".to_string(), Value::Text("milling head".to_string()));
    assert!(leaf("name", Operator::Has, Some(Value::Text("ling".to_string()))).evaluate(&row));
    assert!(!leaf("name", Operator::Has, Some(Value::Text("lathe".to_string()))).evaluate(&row));
    assert!(leaf("name", Operator::Lt, Some(Value::Text("z".to_string()))).evaluate(&row));
    assert!(!leaf("name", Operator::Gt, Some(Value::Text("z".to_string()))).evaluate(&row));
}

#[test]
fn stamp_compares_against_number() {
    let mut row = Row::new();
    row.push("updatedAt".to_string(), Value::Stamp(1_700_000_000_000));
    assert!(
        leaf("updatedAt", Operator::Ge, Some(Value::Num(1_600_000_000_000))).evaluate(&row)
    );
}

#[test]
fn completed_beats_overdue_by_priority() {
    let mut row = Row::new();
    row.push("doneAt".to_string(), Value::Text("2026-02-01".to_string()));
    row.push("deadlineAt".to_string(), Value::Day(20250101));
    let completed = rule(
        1,
        "Completed items",
        leaf("doneAt", Operator::NotEmpty, None),
        1,
        "green",
    );
    let overdue = rule(
        2,
        "Overdue",
        ConditionTree::Branch {
            logic: Logic::And,
            children: vec![
                leaf(
                    "deadlineAt",
                    Operator::Lt,
                    Some(Value::Text("2026-02-10".to_string())),
                ),
                leaf("doneAt", Operator::IsEmpty, None),
            ],
        },
        2,
        "red",
    );
    let rules = vec![overdue, completed];
    let style = resolve_row_style(&row, &rules);
    assert_eq!(style.background_color, Some("green".to_string()));
}

#[test]
fn priority_ties_break_by_id() {
    let mut row = Row::new();
    row.push("a".to_string(), Value::Num(1));
    let always = |id: i64, color: &str| rule(id, "r", leaf("a", Operator::Eq, Some(Value::Num(1))), 5, color);
    let rules = vec![always(9, "late"), always(3, "early")];
    let style = resolve_row_style(&row, &rules);
    assert_eq!(style.background_color, Some("early".to_string()));
}

#[test]
fn disabled_rules_are_ignored() {
    let mut row = Row::new();
    row.push("a".to_string(), Value::Num(1));
    let mut first = rule(1, "r1", leaf("a", Operator::Eq, Some(Value::Num(1))), 1, "blue");
    first.enabled = false;
    let second = rule(2, "r2", leaf("a", Operator::Eq, Some(Value::Num(1))), 2, "gray");
    let style = resolve_row_style(&row, &vec![first, second]);
    assert_eq!(style.background_color, Some("gray".to_string()));
}

#[test]
fn cell_style_falls_back_to_row_rule() {
    let mut row = Row::new();
    row.push("a".to_string(), Value::Num(1));
    let row_rule = rule(1, "base", leaf("a", Operator::Eq, Some(Value::Num(1))), 1, "white");
    let mut other_cell = rule(2, "cell", leaf("a", Operator::Eq, Some(Value::Num(1))), 0, "pink");
    other_cell.target = Target::Cell;
    other_cell.column_key = Some("b".to_string());
    let rules = vec![row_rule, other_cell];
    let for_a = resolve_cell_style(&row, &"a".to_string(), &rules);
    assert_eq!(for_a.background_color, Some("white".to_string()));
    let for_b = resolve_cell_style(&row, &"b".to_string(), &rules);
    assert_eq!(for_b.background_color, Some("pink".to_string()));
}

#[test]
fn no_matching_rule_gives_empty_style() {
    let row = Row::new();
    let style = resolve_row_style(&row, &vec![]);
    assert_eq!(style, Style::empty());
}

#[test]
fn evaluation_is_deterministic_across_calls() {
    let mut row = Row::new();
    row.push("count".to_string(), Value::Num(5));
    row.push("machineWorking".to_string(), Value::Num(2));
    row.push("programing".to_string(), Value::Num(3));
    row.push("preparing".to_string(), Value::Num(1));
    let reg = work_registry();
    let first = evaluate_computed_columns(&row, &reg);
    let second = evaluate_computed_columns(&row, &reg);
    assert_eq!(get_num(&first, "totalTime"), get_num(&second, "totalTime"));
}
