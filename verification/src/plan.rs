//! Logical plans: trees of declarative operator nodes, each exposing its
//! output schema as a pure function of its subtree.  Plans are immutable:
//! the optimizer passes consume a plan and produce a new one through
//! [`LogicalPlanBuilder`], never editing nodes in place.

use crate::expr::{s_field_of, view_expr, Expr, SExpr};
use crate::schema::{s_lookup, Field, SField, Schema};
use vstd::prelude::*;
use vstd::string::StringExecFns;

verus! {

/// How a join matches rows that have no partner.
#[derive(Clone, Copy, PartialEq, Eq, Structural, Debug)]
pub enum JoinType {
    Inner,
    Left,
    Outer,
}

/// The suffix a join appends to right-side column names that collide with
/// a left-side name.
pub open spec fn right_suffix() -> Seq<char> {
    "_right"@
}

/// Mathematical image of a [`LogicalPlan`].
#[verifier::ext_equal]
pub ghost enum SPlan {
    Projection { expr: Seq<SExpr>, input: Box<SPlan> },
    Selection { predicate: SExpr, input: Box<SPlan> },
    Aggregate { input: Box<SPlan>, keys: Seq<SExpr>, aggs: Seq<SExpr> },
    Join {
        input_left: Box<SPlan>,
        input_right: Box<SPlan>,
        how: JoinType,
        left_on: Seq<char>,
        right_on: Seq<char>,
    },
    Sort { input: Box<SPlan>, column: Seq<char>, reverse: bool },
    DataFrameScan { schema: Seq<SField> },
    CsvScan { path: Seq<char>, schema: Seq<SField>, has_header: bool, delimiter: u8 },
}

/// A tree of operator nodes describing a query before execution.
#[derive(Debug, PartialEq)]
pub enum LogicalPlan {
    /// Evaluates a list of output expressions over the rows of `input`.
    Projection { expr: Vec<Expr>, input: Box<LogicalPlan> },
    /// Keeps the rows of `input` on which `predicate` holds.
    Selection { predicate: Expr, input: Box<LogicalPlan> },
    /// Groups the rows of `input` by `keys` and evaluates `aggs` per group.
    Aggregate { input: Box<LogicalPlan>, keys: Vec<Expr>, aggs: Vec<Expr> },
    /// Equi-join of two plans on one column of each; right-side columns
    /// whose name collides with a left-side name are suffixed `"_right"`.
    Join {
        input_left: Box<LogicalPlan>,
        input_right: Box<LogicalPlan>,
        how: JoinType,
        left_on: String,
        right_on: String,
    },
    /// Orders the rows of `input` by one column.
    Sort { input: Box<LogicalPlan>, column: String, reverse: bool },
    /// A leaf: an already materialized frame with a fixed schema.
    DataFrameScan { schema: Schema },
    /// A leaf: a delimited file with a fixed schema.
    CsvScan { path: String, schema: Schema, has_header: bool, delimiter: u8 },
}

/// The images of a list of expressions, in order.
pub open spec fn view_exprs(es: Seq<Expr>) -> Seq<SExpr> {
    es.map_values(|e: Expr| e@)
}

/// The image of a plan tree.
pub open spec fn view_plan(p: LogicalPlan) -> SPlan
    decreases p,
{
    match p {
        LogicalPlan::Projection { expr, input } => SPlan::Projection {
            expr: view_exprs(expr@),
            input: Box::new(view_plan(*input)),
        },
        LogicalPlan::Selection { predicate, input } => SPlan::Selection {
            predicate: predicate@,
            input: Box::new(view_plan(*input)),
        },
        LogicalPlan::Aggregate { input, keys, aggs } => SPlan::Aggregate {
            input: Box::new(view_plan(*input)),
            keys: view_exprs(keys@),
            aggs: view_exprs(aggs@),
        },
        LogicalPlan::Join { input_left, input_right, how, left_on, right_on } => SPlan::Join {
            input_left: Box::new(view_plan(*input_left)),
            input_right: Box::new(view_plan(*input_right)),
            how,
            left_on: left_on@,
            right_on: right_on@,
        },
        LogicalPlan::Sort { input, column, reverse } => SPlan::Sort {
            input: Box::new(view_plan(*input)),
            column: column@,
            reverse,
        },
        LogicalPlan::DataFrameScan { schema } => SPlan::DataFrameScan { schema: schema@ },
        LogicalPlan::CsvScan { path, schema, has_header, delimiter } => SPlan::CsvScan {
            path: path@,
            schema: schema@,
            has_header,
            delimiter,
        },
    }
}

impl View for LogicalPlan {
    type V = SPlan;

    open spec fn view(&self) -> SPlan {
        view_plan(*self)
    }
}

/// The fields that a list of output expressions produces over an input
/// schema, in list order; an expression that does not resolve produces
/// no field.
pub open spec fn s_exprs_fields(es: Seq<SExpr>, s: Seq<SField>) -> Seq<SField>
    decreases es.len(),
{
    if es.len() == 0 {
        Seq::empty()
    } else {
        s_exprs_fields(es.drop_last(), s) + match s_field_of(es.last(), s) {
            Some(f) => seq![f],
            None => Seq::empty(),
        }
    }
}

/// The right-side fields of a join output: a field whose name collides
/// with a left-side name carries the `"_right"` suffix.
pub open spec fn s_suffixed_fields(sl: Seq<SField>, sr: Seq<SField>) -> Seq<SField>
    decreases sr.len(),
{
    if sr.len() == 0 {
        Seq::empty()
    } else {
        s_suffixed_fields(sl, sr.drop_last()) + seq![
            if s_lookup(sl, sr.last().name) is Some {
                SField { name: sr.last().name + right_suffix(), dtype: sr.last().dtype }
            } else {
                sr.last()
            },
        ]
    }
}

/// The output schema of a join: the left fields, then the right fields
/// with collisions suffixed.
pub open spec fn s_join_fields(sl: Seq<SField>, sr: Seq<SField>) -> Seq<SField> {
    sl + s_suffixed_fields(sl, sr)
}

/// The output schema of a plan node, a pure function of its subtree.
pub open spec fn s_schema(p: SPlan) -> Seq<SField>
    decreases p,
{
    match p {
        SPlan::Projection { expr, input } => s_exprs_fields(expr, s_schema(*input)),
        SPlan::Selection { input, .. } => s_schema(*input),
        SPlan::Aggregate { input, keys, aggs } => s_exprs_fields(keys, s_schema(*input))
            + s_exprs_fields(aggs, s_schema(*input)),
        SPlan::Join { input_left, input_right, .. } => s_join_fields(
            s_schema(*input_left),
            s_schema(*input_right),
        ),
        SPlan::Sort { input, .. } => s_schema(*input),
        SPlan::DataFrameScan { schema } => schema,
        SPlan::CsvScan { schema, .. } => schema,
    }
}

/// A copy of a field list.
fn clone_fields(v: &Vec<Field>) -> (r: Vec<Field>)
    ensures
        r@ == v@,
{
    let mut out: Vec<Field> = Vec::new();
    let mut i: usize = 0;
    while i < v.len()
        invariant
            i <= v.len(),
            out@ == v@.take(i as int),
        decreases v.len() - i,
    {
        out.push(v[i].clone());
        proof {
            assert(out@ =~= v@.take(i + 1));
        }
        i += 1;
    }
    proof {
        assert(v@.take(v@.len() as int) =~= v@);
    }
    out
}

/// The fields produced by `es` over `schema`, dropping expressions that
/// do not resolve.
fn exprs_fields(es: &Vec<Expr>, schema: &Schema) -> (r: Vec<Field>)
    ensures
        r@.map_values(|f: Field| f@) == s_exprs_fields(view_exprs(es@), schema@),
{
    let mut out: Vec<Field> = Vec::new();
    proof {
        assert(view_exprs(es@.take(0)) =~= Seq::<SExpr>::empty());
        assert(out@.map_values(|f: Field| f@) =~= s_exprs_fields(view_exprs(es@.take(0)), schema@));
    }
    let mut i: usize = 0;
    while i < es.len()
        invariant
            i <= es.len(),
            out@.map_values(|f: Field| f@) == s_exprs_fields(view_exprs(es@.take(i as int)), schema@),
        decreases es.len() - i,
    {
        let ghost prev = view_exprs(es@.take(i as int));
        proof {
            assert(view_exprs(es@.take(i + 1)).drop_last() =~= prev);
            assert(view_exprs(es@.take(i + 1)).last() == es@[i as int]@);
        }
        match es[i].to_field(schema) {
            Some(f) => {
                out.push(f);
            },
            None => {},
        }
        proof {
            assert(out@.map_values(|f: Field| f@) =~= s_exprs_fields(
                view_exprs(es@.take(i + 1)),
                schema@,
            ));
        }
        i += 1;
    }
    proof {
        assert(es@.take(es@.len() as int) =~= es@);
    }
    out
}

impl LogicalPlan {
    /// The node's output schema.
    pub fn schema(&self) -> (r: Schema)
        ensures
            r@ == s_schema(self@),
        decreases *self,
    {
        match self {
            LogicalPlan::Projection { expr, input } => {
                let input_schema = input.schema();
                Schema::new(exprs_fields(expr, &input_schema))
            },
            LogicalPlan::Selection { input, .. } => input.schema(),
            LogicalPlan::Aggregate { input, keys, aggs } => {
                let input_schema = input.schema();
                let mut fields = exprs_fields(keys, &input_schema);
                let mut agg_fields = exprs_fields(aggs, &input_schema);
                let ghost key_part = fields@.map_values(|f: Field| f@);
                let ghost agg_part = agg_fields@.map_values(|f: Field| f@);
                fields.append(&mut agg_fields);
                proof {
                    assert(fields@.map_values(|f: Field| f@) =~= key_part + agg_part);
                }
                Schema::new(fields)
            },
            LogicalPlan::Join { input_left, input_right, .. } => {
                let schema_left = input_left.schema();
                let schema_right = input_right.schema();
                let mut fields = clone_fields(&schema_left.fields);
                proof {
                    assert(fields@.map_values(|f: Field| f@) =~= schema_left@
                        + s_suffixed_fields(schema_left@, schema_right@.take(0)));
                }
                let mut i: usize = 0;
                while i < schema_right.fields.len()
                    invariant
                        i <= schema_right.fields@.len(),
                        fields@.map_values(|f: Field| f@) == schema_left@ + s_suffixed_fields(
                            schema_left@,
                            schema_right@.take(i as int),
                        ),
                    decreases schema_right.fields@.len() - i,
                {
                    let f = &schema_right.fields[i];
                    proof {
                        assert(schema_right@.take(i + 1).drop_last() =~= schema_right@.take(
                            i as int,
                        ));
                        assert(schema_right@[i as int] == schema_right.fields@[i as int]@);
                        assert(schema_right@.take(i + 1).last() == f@);
                    }
                    let ghost prev = fields@.map_values(|g: Field| g@);
                    if schema_left.field(&f.name).is_some() {
                        let name = f.name.clone().concat("_right");
                        fields.push(Field::new(name, f.dtype));
                        proof {
                            assert(s_lookup(schema_left@, f@.name) is Some);
                            assert(fields@.map_values(|g: Field| g@) =~= prev.push(
                                SField { name: f@.name + right_suffix(), dtype: f@.dtype },
                            ));
                        }
                    } else {
                        fields.push(f.clone());
                        proof {
                            assert(s_lookup(schema_left@, f@.name) is None);
                            assert(fields@.map_values(|g: Field| g@) =~= prev.push(f@));
                        }
                    }
                    proof {
                        assert(fields@.map_values(|g: Field| g@) =~= schema_left@
                            + s_suffixed_fields(schema_left@, schema_right@.take(i + 1)));
                    }
                    i += 1;
                }
                proof {
                    assert(schema_right@.take(schema_right@.len() as int) =~= schema_right@);
                }
                Schema::new(fields)
            },
            LogicalPlan::Sort { input, .. } => input.schema(),
            LogicalPlan::DataFrameScan { schema } => schema.clone(),
            LogicalPlan::CsvScan { schema, .. } => schema.clone(),
        }
    }
}

/// Assembles rewritten plan trees by appending one operator at a time on
/// top of an already built subtree.
pub struct LogicalPlanBuilder {
    plan: LogicalPlan,
}

impl View for LogicalPlanBuilder {
    type V = SPlan;

    closed spec fn view(&self) -> SPlan {
        self.plan@
    }
}

impl LogicalPlanBuilder {
    /// Starts from an existing plan.
    pub fn from(plan: LogicalPlan) -> (r: Self)
        ensures
            r@ == plan@,
    {
        LogicalPlanBuilder { plan }
    }

    /// Puts a projection of `expr` on top.
    pub fn project(self, expr: Vec<Expr>) -> (r: Self)
        ensures
            r@ == (SPlan::Projection { expr: view_exprs(expr@), input: Box::new(self@) }),
    {
        LogicalPlanBuilder {
            plan: LogicalPlan::Projection { expr, input: Box::new(self.plan) },
        }
    }

    /// Puts a filter on `predicate` on top.
    pub fn filter(self, predicate: Expr) -> (r: Self)
        ensures
            r@ == (SPlan::Selection { predicate: predicate@, input: Box::new(self@) }),
    {
        LogicalPlanBuilder {
            plan: LogicalPlan::Selection { predicate, input: Box::new(self.plan) },
        }
    }

    /// Puts a sort by `column` on top.
    pub fn sort(self, column: String, reverse: bool) -> (r: Self)
        ensures
            r@ == (SPlan::Sort { input: Box::new(self@), column: column@, reverse }),
    {
        LogicalPlanBuilder {
            plan: LogicalPlan::Sort { input: Box::new(self.plan), column, reverse },
        }
    }

    /// Puts a group-by with `keys` and `aggs` on top.
    pub fn groupby(self, keys: Vec<Expr>, aggs: Vec<Expr>) -> (r: Self)
        ensures
            r@ == (SPlan::Aggregate {
                input: Box::new(self@),
                keys: view_exprs(keys@),
                aggs: view_exprs(aggs@),
            }),
    {
        LogicalPlanBuilder {
            plan: LogicalPlan::Aggregate { input: Box::new(self.plan), keys, aggs },
        }
    }

    /// Joins with `other` on one column of each side.
    pub fn join(self, other: LogicalPlan, how: JoinType, left_on: String, right_on: String) -> (r:
        Self)
        ensures
            r@ == (SPlan::Join {
                input_left: Box::new(self@),
                input_right: Box::new(other@),
                how,
                left_on: left_on@,
                right_on: right_on@,
            }),
    {
        LogicalPlanBuilder {
            plan: LogicalPlan::Join {
                input_left: Box::new(self.plan),
                input_right: Box::new(other),
                how,
                left_on,
                right_on,
            },
        }
    }

    /// The assembled plan.
    pub fn build(self) -> (r: LogicalPlan)
        ensures
            r@ == self@,
    {
        self.plan
    }
}

} // verus!
