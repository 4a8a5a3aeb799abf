use gridrules::compute::schema_warnings;
use gridrules::schema::{ColumnDef, ColumnType, Registry};

fn col(key: &str, position: i64) -> ColumnDef {
    ColumnDef {
        key: key.to_string(),
        ctype: ColumnType::Text,
        position,
        sort: 0,
        sort_position: 0,
        visible: true,
        archived: false,
        width: "auto".to_string(),
        align: "left".to_string(),
        filter: None,
        label: None,
        compute_expression: None,
    }
}

#[test]
fn live_columns_sorts_by_position_then_key() {
    let mut a = col("alpha", 2);
    let b = col("beta", 1);
    let mut c = col("gamma", 1);
    let mut d = col("delta", 0);
    a.archived = false;
    c.visible = false;
    d.archived = true;
    let reg = Registry::new(vec![a, b, c, d]);
    let live = reg.live_columns();
    let keys: Vec<&str> = live.iter().map(|c| c.key.as_str()).collect();
    assert_eq!(keys, vec!["beta", "gamma", "alpha"]);
}

#[test]
fn sort_spec_orders_axes_and_keeps_direction() {
    let mut a = col("a", 0);
    a.sort = -1;
    a.sort_position = 2;
    let mut b = col("b", 1);
    b.sort = 1;
    b.sort_position = 1;
    let c = col("c", 2);
    let mut d = col("d", 3);
    d.sort = 1;
    d.sort_position = 3;
    d.archived = true;
    let reg = Registry::new(vec![a, b, c, d]);
    let axes = reg.sort_spec();
    let spec: Vec<(&str, bool)> = axes.iter().map(|c| (c.key.as_str(), c.sort > 0)).collect();
    assert_eq!(spec, vec![("b", true), ("a", false)]);
}

#[test]
fn resolve_finds_a_column_by_key() {
    let reg = Registry::new(vec![col("one", 0), col("two", 1)]);
    assert_eq!(reg.resolve(&"two".to_string()).map(|c| c.position), Some(1));
    assert!(reg.resolve(&"three".to_string()).is_none());
}

#[test]
fn display_label_falls_back_to_key() {
    let mut named = col("speed", 0);
    named.label = Some("Speed (rpm)".to_string());
    let plain = col("feed", 1);
    assert_eq!(named.display_label(), "Speed (rpm)");
    assert_eq!(plain.display_label(), "feed");
}

#[test]
fn schema_warnings_name_the_broken_computed_columns() {
    let mut good = col("total", 0);
    good.ctype = ColumnType::Computed;
    good.compute_expression = Some("a + b".to_string());
    let mut broken = col("oops", 1);
    broken.ctype = ColumnType::Computed;
    broken.compute_expression = Some("a ++ b".to_string());
    let mut missing = col("gone", 2);
    missing.ctype = ColumnType::Computed;
    let mut archived = col("old", 3);
    archived.ctype = ColumnType::Computed;
    archived.archived = true;
    let reg = Registry::new(vec![good, broken, missing, archived]);
    assert_eq!(schema_warnings(&reg), vec!["oops".to_string(), "gone".to_string()]);
}
