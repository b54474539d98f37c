use plan_optimizer::expr::{
    col, expr_to_root_column, rename_expr_root_name, Expr, LiteralValue, Operator,
};
use plan_optimizer::optimizer::{check_down_node, PredicateMap, ProjectionPushDown};
use plan_optimizer::plan::{JoinType, LogicalPlan, LogicalPlanBuilder};
use plan_optimizer::schema::{DataType, Field, Schema};

fn schema_of(names: &[&str]) -> Schema {
    let fields = names
        .iter()
        .map(|n| Field::new(n.to_string(), DataType::Int64))
        .collect();
    Schema::new(fields)
}

fn lit(v: i64) -> Expr {
    Expr::Literal(LiteralValue::Int(v))
}

fn gt(left: Expr, right: Expr) -> Expr {
    Expr::BinaryExpr {
        left: Box::new(left),
        op: Operator::Gt,
        right: Box::new(right),
    }
}

#[test]
fn root_column_of_column_and_alias() {
    assert_eq!(
        expr_to_root_column(&col("temp")),
        Some("temp".to_string())
    );
    assert_eq!(
        expr_to_root_column(&col("temp").alias("warmth")),
        Some("temp".to_string())
    );
}

#[test]
fn root_column_of_binary_with_literal() {
    assert_eq!(
        expr_to_root_column(&gt(col("temp"), lit(5))),
        Some("temp".to_string())
    );
}

#[test]
fn no_root_column_across_two_columns() {
    // A binary expression over two different root columns has no single
    // root: the passes treat feeding it where a root is required as a
    // caller defect.
    assert_eq!(expr_to_root_column(&gt(col("a"), col("b"))), None);
    assert_eq!(expr_to_root_column(&lit(1)), None);
}

#[test]
fn equal_roots_on_both_sides_resolve() {
    assert_eq!(
        expr_to_root_column(&gt(col("a"), col("a"))),
        Some("a".to_string())
    );
}

#[test]
fn rename_retargets_every_column_reference() {
    let renamed = rename_expr_root_name(&gt(col("x"), lit(10)), &"y".to_string());
    assert_eq!(renamed, gt(col("y"), lit(10)));
    let renamed_alias = rename_expr_root_name(&col("x").alias("out"), &"y".to_string());
    assert_eq!(renamed_alias, col("y").alias("out"));
}

#[test]
fn check_down_node_signals_resolvability() {
    let s = schema_of(&["days", "temp"]);
    assert!(check_down_node(&col("temp"), &s));
    assert!(!check_down_node(&col("rain"), &s));
    assert!(check_down_node(&gt(col("days"), lit(2)), &s));
    assert!(!check_down_node(&gt(col("rain"), lit(2)), &s));
    // A literal-only alias resolves against any schema, to itself.
    assert!(check_down_node(&lit(1).alias("one"), &s));
}

#[test]
fn to_field_follows_alias_renames() {
    let s = schema_of(&["temp"]);
    let f = col("temp").alias("warmth").to_field(&s).unwrap();
    assert_eq!(f.name().as_str(), "warmth");
    assert_eq!(f.dtype, DataType::Int64);
    let g = gt(col("temp"), lit(0)).to_field(&s).unwrap();
    assert_eq!(g.name().as_str(), "temp");
    assert_eq!(g.dtype, DataType::Boolean);
}

#[test]
fn join_schema_suffixes_collisions() {
    let left = LogicalPlan::DataFrameScan {
        schema: schema_of(&["id", "foo"]),
    };
    let right = LogicalPlan::DataFrameScan {
        schema: schema_of(&["id", "foo", "bar"]),
    };
    let join = LogicalPlanBuilder::from(left)
        .join(right, JoinType::Inner, "id".to_string(), "id".to_string())
        .build();
    let names: Vec<String> = join
        .schema()
        .fields()
        .iter()
        .map(|f| f.name().clone())
        .collect();
    assert_eq!(names, vec!["id", "foo", "id_right", "foo_right", "bar"]);
}

#[test]
fn predicate_map_overwrites_per_name() {
    let mut m = PredicateMap::new();
    m.insert("x".to_string(), gt(col("x"), lit(1)));
    m.insert("x".to_string(), gt(col("x"), lit(2)));
    assert_eq!(m.len(), 1);
    let taken = m.remove(&"x".to_string());
    assert_eq!(taken, Some(gt(col("x"), lit(2))));
    assert_eq!(m.len(), 0);
    assert_eq!(m.remove(&"x".to_string()), None);
}

#[test]
fn split_treats_full_width_projection_as_local() {
    let pass = ProjectionPushDown {};
    // As many accumulated projections as the schema has fields: nothing
    // is pushed, everything stays local.
    let (down, local) = pass.split_acc_projections(
        vec![col("w"), col("h")],
        &schema_of(&["w", "h"]),
    );
    assert!(down.is_empty());
    assert_eq!(local, vec![col("w"), col("h")]);
}

#[test]
fn split_partitions_by_resolvability() {
    let pass = ProjectionPushDown {};
    let (down, local) = pass.split_acc_projections(
        vec![col("w"), col("missing")],
        &schema_of(&["w", "h", "d"]),
    );
    assert_eq!(down, vec![col("w")]);
    assert_eq!(local, vec![col("missing")]);
}

#[test]
fn join_push_down_routes_to_both_resolving_sides() {
    let pass = ProjectionPushDown {};
    let mut left = Vec::new();
    let mut right = Vec::new();
    let pushed = pass.join_push_down(
        &schema_of(&["days", "temp"]),
        &schema_of(&["days", "rain"]),
        &col("days"),
        &mut left,
        &mut right,
    );
    assert!(pushed);
    assert_eq!(left, vec![col("days")]);
    assert_eq!(right, vec![col("days")]);

    let pushed_one = pass.join_push_down(
        &schema_of(&["days", "temp"]),
        &schema_of(&["days", "rain"]),
        &col("rain"),
        &mut left,
        &mut right,
    );
    assert!(pushed_one);
    assert_eq!(left, vec![col("days")]);
    assert_eq!(right, vec![col("days"), col("rain")]);
}
