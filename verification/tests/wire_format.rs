use gridrules::condition::{ConditionTree, Logic, Operator};
use gridrules::row::Row;
use gridrules::value::Value;
use gridrules::wire::{from_wire, to_wire};

fn leaf(column: &str, operator: Operator, literal: Option<Value>) -> ConditionTree {
    ConditionTree::Leaf {
        column: column.to_string(),
        operator,
        literal,
    }
}

#[test]
fn wire_text_of_a_leaf_is_canonical() {
    let tree = leaf("doneAt", Operator::NotEmpty, None);
    assert_eq!(to_wire(&tree), "{\"column\":\"doneAt\",\"operator\":\"notEmpty\"}");
}

#[test]
fn wire_text_of_a_branch_is_canonical() {
    let tree = ConditionTree::Branch {
        logic: Logic::And,
        children: vec![
            leaf("count", Operator::Gt, Some(Value::Num(3))),
            leaf("name", Operator::Eq, Some(Value::Text("mill".to_string()))),
        ],
    };
    assert_eq!(
        to_wire(&tree),
        "{\"logic\":\"AND\",\"conditions\":[{\"column\":\"count\",\"operator\":\"gt\",\"value\":3},{\"column\":\"name\",\"operator\":\"eq\",\"value\":\"mill\"}]}"
    );
}

#[test]
fn round_trip_keeps_a_nested_tree() {
    let tree = ConditionTree::Branch {
        logic: Logic::Or,
        children: vec![
            ConditionTree::Branch {
                logic: Logic::And,
                children: vec![
                    leaf("count", Operator::Le, Some(Value::Num(-12))),
                    leaf("done", Operator::Eq, Some(Value::Flag(true))),
                ],
            },
            leaf("note", Operator::Has, Some(Value::Text("a \"b\" \\ c".to_string()))),
            leaf("extra", Operator::Eq, Some(Value::Null)),
            ConditionTree::Branch {
                logic: Logic::And,
                children: vec![],
            },
        ],
    };
    let text = to_wire(&tree);
    let back = from_wire(text.as_str()).expect("canonical text reads back");
    assert_eq!(back, tree);
}

#[test]
fn round_trip_keeps_extreme_numbers() {
    let tree = ConditionTree::Branch {
        logic: Logic::And,
        children: vec![
            leaf("lo", Operator::Eq, Some(Value::Num(i64::MIN))),
            leaf("hi", Operator::Eq, Some(Value::Num(i64::MAX))),
            leaf("zero", Operator::Eq, Some(Value::Num(0))),
        ],
    };
    let back = from_wire(to_wire(&tree).as_str()).expect("reads back");
    assert_eq!(back, tree);
}

#[test]
fn round_trip_keeps_unknown_operator_names() {
    let tree = leaf("a", Operator::Other("weird".to_string()), Some(Value::Num(1)));
    let back = from_wire(to_wire(&tree).as_str()).expect("reads back");
    assert_eq!(back, tree);
    let mut row = Row::new();
    row.push("a".to_string(), Value::Num(1));
    assert!(!back.evaluate(&row));
}

#[test]
fn round_trip_evaluates_identically() {
    let tree = ConditionTree::Branch {
        logic: Logic::And,
        children: vec![
            leaf("count", Operator::Gt, Some(Value::Num(3))),
            leaf("doneAt", Operator::IsEmpty, None),
        ],
    };
    let back = from_wire(to_wire(&tree).as_str()).expect("reads back");
    let mut matching = Row::new();
    matching.push("count".to_string(), Value::Num(5));
    matching.push("doneAt".to_string(), Value::Null);
    let mut failing = Row::new();
    failing.push("count".to_string(), Value::Num(2));
    failing.push("doneAt".to_string(), Value::Null);
    assert_eq!(tree.evaluate(&matching), back.evaluate(&matching));
    assert_eq!(tree.evaluate(&failing), back.evaluate(&failing));
    assert!(back.evaluate(&matching));
    assert!(!back.evaluate(&failing));
}

#[test]
fn malformed_wire_text_is_refused() {
    assert!(from_wire("").is_none());
    assert!(from_wire("{").is_none());
    assert!(from_wire("{\"logic\":\"AND\",\"conditions\":[").is_none());
    assert!(from_wire("{\"column\":\"a\"}").is_none());
    assert!(from_wire("{\"column\":\"a\",\"operator\":\"eq\",\"value\":}").is_none());
    assert!(from_wire("not a tree at all").is_none());
}

#[test]
fn wire_reader_reads_booleans_and_null() {
    let text = "{\"logic\":\"OR\",\"conditions\":[{\"column\":\"f\",\"operator\":\"eq\",\"value\":false},{\"column\":\"n\",\"operator\":\"eq\",\"value\":null}]}";
    let tree = from_wire(text).expect("reads");
    assert_eq!(
        tree,
        ConditionTree::Branch {
            logic: Logic::Or,
            children: vec![
                leaf("f", Operator::Eq, Some(Value::Flag(false))),
                leaf("n", Operator::Eq, Some(Value::Null)),
            ],
        }
    );
    assert_eq!(to_wire(&tree), text);
}
