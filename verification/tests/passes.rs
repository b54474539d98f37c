use plan_optimizer::expr::{col, Expr, LiteralValue, Operator};
use plan_optimizer::optimizer::{Optimize, PredicatePushDown, ProjectionPushDown};
use plan_optimizer::plan::{JoinType, LogicalPlan, LogicalPlanBuilder};
use plan_optimizer::schema::{DataType, Field, Schema};

fn schema_of(names: &[&str]) -> Schema {
    let fields = names
        .iter()
        .map(|n| Field::new(n.to_string(), DataType::Int64))
        .collect();
    Schema::new(fields)
}

fn scan(names: &[&str]) -> LogicalPlan {
    LogicalPlan::DataFrameScan {
        schema: schema_of(names),
    }
}

fn lit(v: i64) -> Expr {
    Expr::Literal(LiteralValue::Int(v))
}

fn gt(left: Expr, right: Expr) -> Expr {
    Expr::BinaryExpr {
        left: Box::new(left),
        op: Operator::Gt,
        right: Box::new(right),
    }
}

fn project(input: LogicalPlan, exprs: Vec<Expr>) -> LogicalPlan {
    LogicalPlanBuilder::from(input).project(exprs).build()
}

fn filter(input: LogicalPlan, predicate: Expr) -> LogicalPlan {
    LogicalPlanBuilder::from(input).filter(predicate).build()
}

fn sort(input: LogicalPlan, column: &str) -> LogicalPlan {
    LogicalPlanBuilder::from(input)
        .sort(column.to_string(), false)
        .build()
}

fn join(left: LogicalPlan, right: LogicalPlan, left_on: &str, right_on: &str) -> LogicalPlan {
    LogicalPlanBuilder::from(left)
        .join(
            right,
            JoinType::Inner,
            left_on.to_string(),
            right_on.to_string(),
        )
        .build()
}

#[test]
fn test_logical_plan() {
    // An expensive order: the whole frame is sorted, then one column kept.
    let iris = &["sepal.length", "sepal.width", "petal.length"];
    let logical_plan = project(sort(scan(iris), "sepal.width"), vec![col("sepal.width")]);

    let opt = ProjectionPushDown {};
    let logical_plan = opt.optimize(logical_plan);
    println!("{:?}", logical_plan);

    // The projection moved below the sort, so only one column is sorted.
    let expected = sort(
        project(scan(iris), vec![col("sepal.width")]),
        "sepal.width",
    );
    assert_eq!(logical_plan, expected);
}

#[test]
fn scan_level_accumulator_carries_one_column() {
    // Sort(by "w") over Projection(["w"]) over a scan of {w, h}: the
    // request reaching the scan is exactly ["w"], and no projection is
    // inserted between the scan and the sort beyond the one carrying "w".
    let plan = sort(project(scan(&["w", "h"]), vec![col("w")]), "w");
    let optimized = ProjectionPushDown {}.optimize(plan);
    let expected = sort(project(scan(&["w", "h"]), vec![col("w")]), "w");
    assert_eq!(optimized, expected);
}

#[test]
fn no_op_projection_stays_as_written() {
    // The projection already selects exactly the leaf's full schema, so
    // no redundant projection appears at the leaf.
    let plan = project(scan(&["w", "h"]), vec![col("w"), col("h")]);
    let optimized = ProjectionPushDown {}.optimize(plan);
    let expected = project(scan(&["w", "h"]), vec![col("w"), col("h")]);
    assert_eq!(optimized, expected);
}

#[test]
fn bare_leaf_gets_no_synthetic_projection() {
    let optimized = ProjectionPushDown {}.optimize(scan(&["w", "h"]));
    assert_eq!(optimized, scan(&["w", "h"]));
}

#[test]
fn projection_reaches_csv_leaf() {
    let csv = LogicalPlan::CsvScan {
        path: "measurements.csv".to_string(),
        schema: schema_of(&["a", "b"]),
        has_header: true,
        delimiter: b',',
    };
    let plan = project(csv, vec![col("a")]);
    let optimized = ProjectionPushDown {}.optimize(plan);
    let expected_leaf = LogicalPlan::CsvScan {
        path: "measurements.csv".to_string(),
        schema: schema_of(&["a", "b"]),
        has_header: true,
        delimiter: b',',
    };
    assert_eq!(optimized, project(expected_leaf, vec![col("a")]));
}

#[test]
fn join_keys_pushed_and_stripped_again() {
    // Only "temp" is requested; the join still needs "days" on both
    // sides, and the local projection above the join drops it again.
    let plan = project(
        join(scan(&["days", "temp"]), scan(&["days", "rain"]), "days", "days"),
        vec![col("temp")],
    );
    let optimized = ProjectionPushDown {}.optimize(plan);
    let expected = project(
        join(
            project(scan(&["days", "temp"]), vec![col("days"), col("temp")]),
            project(scan(&["days", "rain"]), vec![col("days")]),
            "days",
            "days",
        ),
        vec![col("temp")],
    );
    assert_eq!(optimized, expected);
}

#[test]
fn suffix_round_trip_through_join() {
    // Both leaves carry "foo"; requesting the collision column
    // "foo_right" pushes "foo" aliased back to "foo_right" on the right
    // side only, and keeps "foo_right" as the local projection.
    let plan = project(
        join(scan(&["id", "foo"]), scan(&["id", "foo"]), "id", "id"),
        vec![col("foo_right")],
    );
    let optimized = ProjectionPushDown {}.optimize(plan);
    let expected = project(
        join(
            project(scan(&["id", "foo"]), vec![col("id")]),
            project(
                scan(&["id", "foo"]),
                vec![col("id"), col("foo").alias("foo_right")],
            ),
            "id",
            "id",
        ),
        vec![col("foo_right")],
    );
    assert_eq!(optimized, expected);
}

#[test]
fn aliased_request_pushes_root_and_renames_locally() {
    // An aliased request through a join pushes the root column down and
    // re-applies the rename above the join.
    let plan = project(
        join(scan(&["days", "temp"]), scan(&["days", "rain"]), "days", "days"),
        vec![col("temp").alias("warmth")],
    );
    let optimized = ProjectionPushDown {}.optimize(plan);
    let expected = project(
        join(
            project(scan(&["days", "temp"]), vec![col("days"), col("temp")]),
            project(scan(&["days", "rain"]), vec![col("days")]),
            "days",
            "days",
        ),
        vec![col("temp").alias("warmth")],
    );
    assert_eq!(optimized, expected);
}

#[test]
fn filter_moves_below_sort() {
    let pred = gt(col("w"), lit(3));
    let plan = filter(sort(scan(&["w", "h"]), "w"), pred);
    let optimized = PredicatePushDown {}.optimize(plan);
    let expected = sort(filter(scan(&["w", "h"]), gt(col("w"), lit(3))), "w");
    assert_eq!(optimized, expected);
}

#[test]
fn filters_routed_to_their_join_sides() {
    // One filter per side: each is evaluated below the join, on the side
    // whose schema resolves it.
    let plan = filter(
        filter(
            join(scan(&["days", "temp"]), scan(&["days", "rain"]), "days", "days"),
            gt(col("rain"), lit(2)),
        ),
        gt(col("temp"), lit(5)),
    );
    let optimized = PredicatePushDown {}.optimize(plan);
    let expected = join(
        filter(scan(&["days", "temp"]), gt(col("temp"), lit(5))),
        filter(scan(&["days", "rain"]), gt(col("rain"), lit(2))),
        "days",
        "days",
    );
    assert_eq!(optimized, expected);
}

#[test]
fn unresolvable_filter_stays_above_join() {
    // A filter on the suffixed collision column resolves on neither
    // side's own schema, so it stays local, directly above the join.
    let plan = filter(
        join(scan(&["id", "foo"]), scan(&["id", "foo"]), "id", "id"),
        gt(col("foo_right"), lit(0)),
    );
    let optimized = PredicatePushDown {}.optimize(plan);
    let expected = filter(
        join(scan(&["id", "foo"]), scan(&["id", "foo"]), "id", "id"),
        gt(col("foo_right"), lit(0)),
    );
    assert_eq!(optimized, expected);
}

#[test]
fn alias_rename_keeps_predicate_consistent() {
    // Selection(pred on "x") over Projection(Alias(col("y"), "x")) over a
    // leaf with column "y": the leaf ends up filtered on "y", not "x".
    let plan = filter(
        project(scan(&["y", "z"]), vec![col("y").alias("x")]),
        gt(col("x"), lit(10)),
    );
    let optimized = PredicatePushDown {}.optimize(plan);
    let expected = project(
        filter(scan(&["y", "z"]), gt(col("y"), lit(10))),
        vec![col("y").alias("x")],
    );
    assert_eq!(optimized, expected);
}

#[test]
fn second_filter_on_same_column_replaces_bookkeeping() {
    // The accumulator keys predicates by root column name and insertion
    // overwrites: of two stacked filters on one column, the one nearer
    // the leaf survives.
    let plan = filter(
        filter(scan(&["x"]), gt(col("x"), lit(2))),
        gt(col("x"), lit(1)),
    );
    let optimized = PredicatePushDown {}.optimize(plan);
    let expected = filter(scan(&["x"]), gt(col("x"), lit(2)));
    assert_eq!(optimized, expected);
}

#[test]
fn filter_passes_through_aggregate() {
    let plan = filter(
        LogicalPlanBuilder::from(scan(&["k", "v"]))
            .groupby(vec![col("k")], vec![col("v")])
            .build(),
        gt(col("k"), lit(0)),
    );
    let optimized = PredicatePushDown {}.optimize(plan);
    let expected = LogicalPlanBuilder::from(filter(scan(&["k", "v"]), gt(col("k"), lit(0))))
        .groupby(vec![col("k")], vec![col("v")])
        .build();
    assert_eq!(optimized, expected);
}

#[test]
fn projection_splits_at_aggregate() {
    let plan = project(
        LogicalPlanBuilder::from(scan(&["k", "v"]))
            .groupby(vec![col("k")], vec![col("v")])
            .build(),
        vec![col("k")],
    );
    let optimized = ProjectionPushDown {}.optimize(plan);
    let expected = LogicalPlanBuilder::from(project(scan(&["k", "v"]), vec![col("k")]))
        .groupby(vec![col("k")], vec![col("v")])
        .build();
    assert_eq!(optimized, expected);
}

#[test]
fn selection_is_transparent_to_projection_pushdown() {
    let plan = project(
        filter(scan(&["w", "h"]), gt(col("w"), lit(1))),
        vec![col("w")],
    );
    let optimized = ProjectionPushDown {}.optimize(plan);
    let expected = filter(
        project(scan(&["w", "h"]), vec![col("w")]),
        gt(col("w"), lit(1)),
    );
    assert_eq!(optimized, expected);
}

#[test]
fn mixed_filters_split_between_side_and_local() {
    // Of two filters above a join, the one on a left-side column moves
    // below the join; the one on the suffixed collision column stays
    // directly above it.  Both are materialized exactly once.
    let plan = filter(
        filter(
            join(scan(&["id", "foo"]), scan(&["id", "foo"]), "id", "id"),
            gt(col("foo"), lit(1)),
        ),
        gt(col("foo_right"), lit(0)),
    );
    let optimized = PredicatePushDown {}.optimize(plan);
    let expected = filter(
        join(
            filter(scan(&["id", "foo"]), gt(col("foo"), lit(1))),
            scan(&["id", "foo"]),
            "id",
            "id",
        ),
        gt(col("foo_right"), lit(0)),
    );
    assert_eq!(optimized, expected);
}
