//! The two optimizer passes.  Both walk the plan top-down carrying an
//! accumulator of pending expressions, decide at each node whether to fold
//! the node's own operation into the accumulator, split the accumulator
//! into a part that continues downward and a part applied at the node, or
//! materialize everything outstanding at a leaf, and rebuild the tree
//! bottom-up through the builder.
//!
//! What each pass returns is pinned down by a side-by-side mathematical
//! description ([`s_proj_push`], [`s_pred_push`]) over the images of plans
//! and expressions.

use crate::expr::{
    col, expr_to_root_column, rename_expr_root_name, s_field_of, s_rename, s_resolves, s_root,
    Expr, SExpr,
};
use crate::plan::{
    right_suffix, s_schema, view_exprs, LogicalPlan, LogicalPlanBuilder, SPlan,
};
use crate::schema::{Schema, SField};
use vstd::prelude::*;
use vstd::string::StrSliceExecFns;

verus! {

/// Whether a selection or projection expression can be evaluated against
/// the schema of the node below it.
pub fn check_down_node(expr: &Expr, down_schema: &Schema) -> (r: bool)
    ensures
        r == s_resolves(expr@, down_schema@),
{
    expr.to_field(down_schema).is_some()
}

/// An optimizer pass: consumes a plan and produces an equivalent plan.
pub trait Optimize {
    /// The inputs the pass accepts: a plan holding an expression with no
    /// single root column where one is required is a defect of the caller.
    spec fn accepts(&self, logical_plan: LogicalPlan) -> bool;

    /// The plan the pass produces.
    spec fn optimized(&self, logical_plan: LogicalPlan) -> SPlan;

    fn optimize(&self, logical_plan: LogicalPlan) -> (r: LogicalPlan)
        requires
            self.accepts(logical_plan),
        ensures
            r@ == self.optimized(logical_plan),
    ;
}

/// Every expression of the list has a single root column.
pub open spec fn s_exprs_rooted(es: Seq<SExpr>) -> bool {
    forall|i: int| 0 <= i < es.len() ==> s_root(#[trigger] es[i]) is Some
}

/// Every projection expression anywhere in the plan has a single root
/// column.
pub open spec fn s_plan_projections_rooted(p: SPlan) -> bool
    decreases p,
{
    match p {
        SPlan::Projection { expr, input } => s_exprs_rooted(expr) && s_plan_projections_rooted(
            *input,
        ),
        SPlan::Selection { input, .. } => s_plan_projections_rooted(*input),
        SPlan::Aggregate { input, .. } => s_plan_projections_rooted(*input),
        SPlan::Join { input_left, input_right, .. } => s_plan_projections_rooted(*input_left)
            && s_plan_projections_rooted(*input_right),
        SPlan::Sort { input, .. } => s_plan_projections_rooted(*input),
        SPlan::DataFrameScan { .. } => true,
        SPlan::CsvScan { .. } => true,
    }
}

/// The name carries the join collision suffix.
pub open spec fn s_ends_right(n: Seq<char>) -> bool {
    n.len() >= right_suffix().len() && n.subrange(
        n.len() - right_suffix().len(),
        n.len() as int,
    ) == right_suffix()
}

/// The name without the join collision suffix.
pub open spec fn s_strip_right(n: Seq<char>) -> Seq<char> {
    n.subrange(0, n.len() - right_suffix().len())
}

/// Whether the column name ends in `"_right"`.
fn ends_with_right(s: &String) -> (r: bool)
    ensures
        r == s_ends_right(s@),
{
    proof {
        reveal_strlit("_right");
    }
    let a = s.as_str();
    let n = a.unicode_len();
    if n < 6 {
        return false;
    }
    let r = a.get_char(n - 6) == '_' && a.get_char(n - 5) == 'r' && a.get_char(n - 4) == 'i'
        && a.get_char(n - 3) == 'g' && a.get_char(n - 2) == 'h' && a.get_char(n - 1) == 't';
    proof {
        let sub = s@.subrange(n - 6, n as int);
        if r {
            assert(sub =~= right_suffix());
        } else {
            if sub == right_suffix() {
                assert(s@[n - 6] == sub[0]);
                assert(s@[n - 5] == sub[1]);
                assert(s@[n - 4] == sub[2]);
                assert(s@[n - 3] == sub[3]);
                assert(s@[n - 2] == sub[4]);
                assert(s@[n - 1] == sub[5]);
            }
        }
    }
    r
}

/// The column name with the trailing `"_right"` removed.
fn strip_right_suffix(s: &String) -> (r: String)
    requires
        s_ends_right(s@),
    ensures
        r@ == s_strip_right(s@),
{
    proof {
        reveal_strlit("_right");
    }
    let a = s.as_str();
    let n = a.unicode_len();
    a.substring_char(0, n - 6).to_owned()
}

/// The elements of `acc` whose resolvability against `s` equals `want`,
/// in order.
pub open spec fn s_keep(acc: Seq<SExpr>, s: Seq<SField>, want: bool) -> Seq<SExpr>
    decreases acc.len(),
{
    if acc.len() == 0 {
        Seq::empty()
    } else {
        s_keep(acc.drop_last(), s, want) + if s_resolves(acc.last(), s) == want {
            seq![acc.last()]
        } else {
            Seq::empty()
        }
    }
}

/// The split of accumulated projections against a downward schema: the
/// part pushed further down and the part evaluated at the current node.
/// When the schema has exactly as many fields as there are accumulated
/// projections there is nothing to gain and everything stays local.
pub open spec fn s_split(acc: Seq<SExpr>, down: Seq<SField>) -> (Seq<SExpr>, Seq<SExpr>) {
    if down.len() == acc.len() {
        (Seq::empty(), acc)
    } else {
        (s_keep(acc, down, true), s_keep(acc, down, false))
    }
}

/// The plan with the leftover local projections applied on top, when any.
pub open spec fn s_finish_node(local: Seq<SExpr>, lp: SPlan) -> SPlan {
    if local.len() > 0 {
        SPlan::Projection { expr: local, input: Box::new(lp) }
    } else {
        lp
    }
}

/// The leaf with every outstanding projection materialized above it; a
/// leaf reached with none is returned unchanged.
pub open spec fn s_finish_at_leaf(lp: SPlan, acc: Seq<SExpr>) -> SPlan {
    if acc.len() == 0 {
        lp
    } else {
        SPlan::Projection { expr: acc, input: Box::new(lp) }
    }
}

/// What one accumulated projection contributes at a join: additions to
/// the left pushdown set, to the right pushdown set, and to the local
/// projections above the join.
pub open spec fn s_join_step(e: SExpr, sl: Seq<SField>, sr: Seq<SField>) -> (
    Seq<SExpr>,
    Seq<SExpr>,
    Seq<SExpr>,
) {
    let (proj, pre_local, add_local): (SExpr, Seq<SExpr>, bool) = match e {
        SExpr::Alias { inner, alias } => {
            let root = match s_root(*inner) {
                Some(r) => r,
                None => Seq::empty(),
            };
            (
                SExpr::Col { name: root },
                seq![
                    SExpr::Alias { inner: Box::new(SExpr::Col { name: root }), alias },
                ],
                false,
            )
        },
        _ => (e, Seq::empty(), true),
    };
    let pl_add = if s_resolves(proj, sl) {
        seq![proj]
    } else {
        Seq::empty()
    };
    let pr_add = if s_resolves(proj, sr) {
        seq![proj]
    } else {
        Seq::empty()
    };
    if !s_resolves(proj, sl) && !s_resolves(proj, sr) {
        let rcn = match s_root(proj) {
            Some(r) => r,
            None => Seq::empty(),
        };
        if s_ends_right(rcn) {
            (
                pl_add,
                pr_add + seq![
                    SExpr::Alias {
                        inner: Box::new(SExpr::Col { name: s_strip_right(rcn) }),
                        alias: rcn,
                    },
                ],
                pre_local + seq![proj],
            )
        } else {
            (pl_add, pr_add, pre_local)
        }
    } else {
        (pl_add, pr_add, if add_local {
            pre_local + seq![proj]
        } else {
            pre_local
        })
    }
}

/// The contributions of all accumulated projections at a join, in order.
pub open spec fn s_join_split(acc: Seq<SExpr>, sl: Seq<SField>, sr: Seq<SField>) -> (
    Seq<SExpr>,
    Seq<SExpr>,
    Seq<SExpr>,
) decreases acc.len(),
{
    if acc.len() == 0 {
        (Seq::empty(), Seq::empty(), Seq::empty())
    } else {
        let prev = s_join_split(acc.drop_last(), sl, sr);
        let step = s_join_step(acc.last(), sl, sr);
        (prev.0 + step.0, prev.1 + step.1, prev.2 + step.2)
    }
}

/// What projection pushdown produces: the plan rewritten so the columns
/// pending in `acc` (what some ancestor ultimately needs) are dropped as
/// early as possible.
pub open spec fn s_proj_push(p: SPlan, acc: Seq<SExpr>) -> SPlan
    decreases p,
{
    match p {
        SPlan::Projection { expr, input } => {
            let split = s_split(acc + expr, s_schema(*input));
            s_finish_node(split.1, s_proj_push(*input, split.0))
        },
        SPlan::Selection { predicate, input } => SPlan::Selection {
            predicate,
            input: Box::new(s_proj_push(*input, acc)),
        },
        SPlan::Aggregate { input, keys, aggs } => {
            let split = s_split(acc, s_schema(*input));
            s_finish_node(
                split.1,
                SPlan::Aggregate { input: Box::new(s_proj_push(*input, split.0)), keys, aggs },
            )
        },
        SPlan::Join { input_left, input_right, how, left_on, right_on } => {
            if acc.len() == 0 {
                SPlan::Join {
                    input_left: Box::new(s_proj_push(*input_left, Seq::empty())),
                    input_right: Box::new(s_proj_push(*input_right, Seq::empty())),
                    how,
                    left_on,
                    right_on,
                }
            } else {
                let split = s_join_split(
                    acc,
                    s_schema(*input_left),
                    s_schema(*input_right),
                );
                s_finish_node(
                    split.2,
                    SPlan::Join {
                        input_left: Box::new(
                            s_proj_push(*input_left, seq![SExpr::Col { name: left_on }] + split.0),
                        ),
                        input_right: Box::new(
                            s_proj_push(
                                *input_right,
                                seq![SExpr::Col { name: right_on }] + split.1,
                            ),
                        ),
                        how,
                        left_on,
                        right_on,
                    },
                )
            }
        },
        SPlan::Sort { input, column, reverse } => SPlan::Sort {
            input: Box::new(s_proj_push(*input, acc)),
            column,
            reverse,
        },
        SPlan::DataFrameScan { .. } => s_finish_at_leaf(p, acc),
        SPlan::CsvScan { .. } => s_finish_at_leaf(p, acc),
    }
}

/// Both halves of a split keep single-root expressions single-root.
proof fn lemma_keep_rooted(acc: Seq<SExpr>, s: Seq<SField>, want: bool)
    requires
        s_exprs_rooted(acc),
    ensures
        s_exprs_rooted(s_keep(acc, s, want)),
    decreases acc.len(),
{
    if acc.len() > 0 {
        assert(s_exprs_rooted(acc.drop_last()));
        lemma_keep_rooted(acc.drop_last(), s, want);
    }
}

/// What one projection contributes to the pushdown sets of a join holds
/// single-root expressions only.
proof fn lemma_join_step_rooted(e: SExpr, sl: Seq<SField>, sr: Seq<SField>)
    requires
        s_root(e) is Some,
    ensures
        s_exprs_rooted(s_join_step(e, sl, sr).0),
        s_exprs_rooted(s_join_step(e, sl, sr).1),
{
    let proj: SExpr = match e {
        SExpr::Alias { inner, alias } => SExpr::Col {
            name: match s_root(*inner) {
                Some(r) => r,
                None => Seq::empty(),
            },
        },
        _ => e,
    };
    assert(s_root(proj) is Some);
    let step = s_join_step(e, sl, sr);
    let pl_add: Seq<SExpr> = if s_resolves(proj, sl) {
        seq![proj]
    } else {
        Seq::empty()
    };
    let pr_add: Seq<SExpr> = if s_resolves(proj, sr) {
        seq![proj]
    } else {
        Seq::empty()
    };
    assert(s_exprs_rooted(pl_add));
    assert(s_exprs_rooted(pr_add));
    assert(step.0 == pl_add);
    if !s_resolves(proj, sl) && !s_resolves(proj, sr) {
        let rcn = match s_root(proj) {
            Some(r) => r,
            None => Seq::empty(),
        };
        if s_ends_right(rcn) {
            let ic = SExpr::Col { name: s_strip_right(rcn) };
            assert(s_root(ic) is Some);
            let extra = SExpr::Alias { inner: Box::new(ic), alias: rcn };
            assert(s_root(extra) == s_root(ic));
            assert(step.1 == pr_add + seq![extra]);
            assert forall|i: int| 0 <= i < step.1.len() implies s_root(
                #[trigger] step.1[i],
            ) is Some by {
                if i < pr_add.len() {
                    assert(step.1[i] == pr_add[i]);
                } else {
                    assert(step.1[i] == extra);
                }
            }
        } else {
            assert(step.1 == pr_add);
        }
    } else {
        assert(step.1 == pr_add);
    }
}

/// The pushdown sets a join hands its sides hold single-root expressions
/// only.
proof fn lemma_join_split_rooted(acc: Seq<SExpr>, sl: Seq<SField>, sr: Seq<SField>)
    requires
        s_exprs_rooted(acc),
    ensures
        s_exprs_rooted(s_join_split(acc, sl, sr).0),
        s_exprs_rooted(s_join_split(acc, sl, sr).1),
    decreases acc.len(),
{
    if acc.len() > 0 {
        assert(s_exprs_rooted(acc.drop_last()));
        lemma_join_split_rooted(acc.drop_last(), sl, sr);
        let prev = s_join_split(acc.drop_last(), sl, sr);
        let step = s_join_step(acc.last(), sl, sr);
        assert(s_root(acc.last()) is Some);
        lemma_join_step_rooted(acc.last(), sl, sr);
        assert forall|i: int| 0 <= i < (prev.0 + step.0).len() implies s_root(
            #[trigger] (prev.0 + step.0)[i],
        ) is Some by {
            if i < prev.0.len() {
                assert((prev.0 + step.0)[i] == prev.0[i]);
            } else {
                assert((prev.0 + step.0)[i] == step.0[i - prev.0.len()]);
            }
        }
        assert forall|i: int| 0 <= i < (prev.1 + step.1).len() implies s_root(
            #[trigger] (prev.1 + step.1)[i],
        ) is Some by {
            if i < prev.1.len() {
                assert((prev.1 + step.1)[i] == prev.1[i]);
            } else {
                assert((prev.1 + step.1)[i] == step.1[i - prev.1.len()]);
            }
        }
    }
}

/// Rewrites a plan so that only the columns some ancestor needs are
/// materialized, as close to the sources as resolvability allows.
pub struct ProjectionPushDown {}

impl ProjectionPushDown {
    /// Materializes the outstanding projections above a leaf; a leaf
    /// reached with an empty accumulator stays bare.
    fn finish_at_leaf(&self, lp: LogicalPlan, acc_projections: Vec<Expr>) -> (r: LogicalPlan)
        ensures
            r@ == s_finish_at_leaf(lp@, view_exprs(acc_projections@)),
    {
        match acc_projections.len() {
            0 => lp,
            _ => LogicalPlanBuilder::from(lp).project(acc_projections).build(),
        }
    }

    /// Splits the accumulated projections into those resolvable against
    /// the downward schema (pushed further) and those evaluated here.
    pub fn split_acc_projections(&self, acc_projections: Vec<Expr>, down_schema: &Schema) -> (r: (
        Vec<Expr>,
        Vec<Expr>,
    ))
        ensures
            view_exprs(r.0@) == s_split(view_exprs(acc_projections@), down_schema@).0,
            view_exprs(r.1@) == s_split(view_exprs(acc_projections@), down_schema@).1,
    {
        if down_schema.len() == acc_projections.len() {
            (Vec::new(), acc_projections)
        } else {
            let mut down: Vec<Expr> = Vec::new();
            let mut local: Vec<Expr> = Vec::new();
            proof {
                assert(view_exprs(acc_projections@.take(0)) =~= Seq::<SExpr>::empty());
            }
            let mut i: usize = 0;
            while i < acc_projections.len()
                invariant
                    i <= acc_projections.len(),
                    down_schema@.len() != view_exprs(acc_projections@).len(),
                    view_exprs(down@) == s_keep(
                        view_exprs(acc_projections@.take(i as int)),
                        down_schema@,
                        true,
                    ),
                    view_exprs(local@) == s_keep(
                        view_exprs(acc_projections@.take(i as int)),
                        down_schema@,
                        false,
                    ),
                decreases acc_projections.len() - i,
            {
                proof {
                    assert(view_exprs(acc_projections@.take(i + 1)).drop_last() =~= view_exprs(
                        acc_projections@.take(i as int),
                    ));
                    assert(view_exprs(acc_projections@.take(i + 1)).last() == acc_projections@[
                        i as int
                    ]@);
                }
                let e = acc_projections[i].clone();
                if check_down_node(&e, down_schema) {
                    down.push(e);
                } else {
                    local.push(e);
                }
                proof {
                    assert(view_exprs(down@) =~= s_keep(
                        view_exprs(acc_projections@.take(i + 1)),
                        down_schema@,
                        true,
                    ));
                    assert(view_exprs(local@) =~= s_keep(
                        view_exprs(acc_projections@.take(i + 1)),
                        down_schema@,
                        false,
                    ));
                }
                i += 1;
            }
            proof {
                assert(acc_projections@.take(acc_projections@.len() as int) =~= acc_projections@);
            }
            (down, local)
        }
    }

    /// Applies the leftover local projections above a rebuilt node, when
    /// any.
    fn finish_node(&self, local_projections: Vec<Expr>, builder: LogicalPlanBuilder) -> (r:
        LogicalPlan)
        ensures
            r@ == s_finish_node(view_exprs(local_projections@), builder@),
    {
        if local_projections.len() > 0 {
            builder.project(local_projections).build()
        } else {
            builder.build()
        }
    }

    /// Routes one projection to whichever join sides resolve it; an
    /// expression both sides resolve is pushed to both.  Returns whether
    /// at least one side took it.
    pub fn join_push_down(
        &self,
        schema_left: &Schema,
        schema_right: &Schema,
        proj: &Expr,
        pushdown_left: &mut Vec<Expr>,
        pushdown_right: &mut Vec<Expr>,
    ) -> (r: bool)
        ensures
            final(pushdown_left)@ == (if s_resolves(proj@, schema_left@) {
                old(pushdown_left)@.push(*proj)
            } else {
                old(pushdown_left)@
            }),
            final(pushdown_right)@ == (if s_resolves(proj@, schema_right@) {
                old(pushdown_right)@.push(*proj)
            } else {
                old(pushdown_right)@
            }),
            r == (s_resolves(proj@, schema_left@) || s_resolves(proj@, schema_right@)),
    {
        let mut pushed_at_least_one = false;
        if check_down_node(proj, schema_left) {
            pushdown_left.push(proj.clone());
            pushed_at_least_one = true;
        }
        if check_down_node(proj, schema_right) {
            pushdown_right.push(proj.clone());
            pushed_at_least_one = true;
        }
        pushed_at_least_one
    }

    /// Walks the plan top-down, adding every projection encountered to the
    /// accumulated projections, and rebuilds each other operator on the
    /// output of the recursion; the recursion stops at the leaves, where
    /// the outstanding projections are applied.
    pub fn push_down(&self, logical_plan: LogicalPlan, acc_projections: Vec<Expr>) -> (r:
        LogicalPlan)
        requires
            s_plan_projections_rooted(logical_plan@),
            s_exprs_rooted(view_exprs(acc_projections@)),
        ensures
            r@ == s_proj_push(logical_plan@, view_exprs(acc_projections@)),
        decreases logical_plan,
    {
        let ghost accv = view_exprs(acc_projections@);
        match logical_plan {
            LogicalPlan::Projection { expr, input } => {
                let ghost ev = view_exprs(expr@);
                let mut acc_projections = acc_projections;
                let mut expr = expr;
                acc_projections.append(&mut expr);
                proof {
                    assert(view_exprs(acc_projections@) =~= accv + ev);
                    assert(s_exprs_rooted(accv + ev));
                    lemma_keep_rooted(accv + ev, s_schema(input@), true);
                    if s_schema(input@).len() == (accv + ev).len() {
                        assert(s_exprs_rooted(Seq::<SExpr>::empty()));
                    }
                }
                let input_schema = input.schema();
                let (acc_projections, local_projections) = self.split_acc_projections(
                    acc_projections,
                    &input_schema,
                );
                let lp = self.push_down(*input, acc_projections);
                let builder = LogicalPlanBuilder::from(lp);
                self.finish_node(local_projections, builder)
            },
            LogicalPlan::DataFrameScan { schema } => {
                let lp = LogicalPlan::DataFrameScan { schema };
                self.finish_at_leaf(lp, acc_projections)
            },
            LogicalPlan::CsvScan { path, schema, has_header, delimiter } => {
                let lp = LogicalPlan::CsvScan { path, schema, has_header, delimiter };
                self.finish_at_leaf(lp, acc_projections)
            },
            LogicalPlan::Sort { input, column, reverse } => LogicalPlanBuilder::from(
                self.push_down(*input, acc_projections),
            ).sort(column, reverse).build(),
            LogicalPlan::Selection { predicate, input } => LogicalPlanBuilder::from(
                self.push_down(*input, acc_projections),
            ).filter(predicate).build(),
            LogicalPlan::Aggregate { input, keys, aggs } => {
                proof {
                    lemma_keep_rooted(accv, s_schema(input@), true);
                }
                let input_schema = input.schema();
                let (acc_projections, local_projections) = self.split_acc_projections(
                    acc_projections,
                    &input_schema,
                );
                let lp = self.push_down(*input, acc_projections);
                let builder = LogicalPlanBuilder::from(lp).groupby(keys, aggs);
                self.finish_node(local_projections, builder)
            },
            LogicalPlan::Join { input_left, input_right, how, left_on, right_on } => {
                let mut pushdown_left: Vec<Expr> = Vec::new();
                let mut pushdown_right: Vec<Expr> = Vec::new();
                let mut local_projection: Vec<Expr> = Vec::new();
                let ghost sl = s_schema(input_left@);
                let ghost sr = s_schema(input_right@);
                if acc_projections.len() > 0 {
                    let schema_left = input_left.schema();
                    let schema_right = input_right.schema();
                    pushdown_left.push(Expr::Column(left_on.clone()));
                    pushdown_right.push(Expr::Column(right_on.clone()));
                    proof {
                        assert(view_exprs(pushdown_left@) =~= seq![
                            SExpr::Col { name: left_on@ },
                        ] + s_join_split(accv.take(0), sl, sr).0);
                        assert(view_exprs(pushdown_right@) =~= seq![
                            SExpr::Col { name: right_on@ },
                        ] + s_join_split(accv.take(0), sl, sr).1);
                        assert(view_exprs(local_projection@) =~= s_join_split(
                            accv.take(0),
                            sl,
                            sr,
                        ).2);
                    }
                    let mut k: usize = 0;
                    while k < acc_projections.len()
                        invariant
                            k <= acc_projections.len(),
                            accv == view_exprs(acc_projections@),
                            s_exprs_rooted(accv),
                            schema_left@ == sl,
                            schema_right@ == sr,
                            view_exprs(pushdown_left@) == seq![
                                SExpr::Col { name: left_on@ },
                            ] + s_join_split(accv.take(k as int), sl, sr).0,
                            view_exprs(pushdown_right@) == seq![
                                SExpr::Col { name: right_on@ },
                            ] + s_join_split(accv.take(k as int), sl, sr).1,
                            view_exprs(local_projection@) == s_join_split(
                                accv.take(k as int),
                                sl,
                                sr,
                            ).2,
                        decreases acc_projections.len() - k,
                    {
                        let ghost e = accv[k as int];
                        let ghost step = s_join_step(e, sl, sr);
                        let ghost prev = s_join_split(accv.take(k as int), sl, sr);
                        let ghost pl0 = view_exprs(pushdown_left@);
                        let ghost pr0 = view_exprs(pushdown_right@);
                        let ghost loc0 = view_exprs(local_projection@);
                        proof {
                            assert(accv.take(k + 1).drop_last() =~= accv.take(k as int));
                            assert(accv.take(k + 1).last() == e);
                            assert(s_root(e) is Some);
                        }
                        let mut proj = acc_projections[k].clone();
                        let mut add_local = true;
                        proj = match proj {
                            Expr::Alias(expr_inner, name) => {
                                let root_name = expr_to_root_column(&expr_inner).unwrap();
                                let new_proj = Expr::Column(root_name);
                                local_projection.push(
                                    Expr::Alias(Box::new(new_proj.clone()), name),
                                );
                                add_local = false;
                                new_proj
                            },
                            other => other,
                        };
                        if !self.join_push_down(
                            &schema_left,
                            &schema_right,
                            &proj,
                            &mut pushdown_left,
                            &mut pushdown_right,
                        ) {
                            let root_column_name = expr_to_root_column(&proj).unwrap();
                            if ends_with_right(&root_column_name) {
                                let downwards_name = strip_right_suffix(&root_column_name);
                                let projection = col(downwards_name.as_str()).alias(
                                    root_column_name.as_str(),
                                );
                                pushdown_right.push(projection);
                                local_projection.push(proj);
                            }
                        } else if add_local {
                            local_projection.push(proj);
                        }
                        proof {
                            assert(view_exprs(pushdown_left@) =~= pl0 + step.0);
                            assert(view_exprs(pushdown_right@) =~= pr0 + step.1);
                            assert(view_exprs(local_projection@) =~= loc0 + step.2);
                            assert(view_exprs(pushdown_left@) =~= seq![
                                SExpr::Col { name: left_on@ },
                            ] + s_join_split(accv.take(k + 1), sl, sr).0);
                            assert(view_exprs(pushdown_right@) =~= seq![
                                SExpr::Col { name: right_on@ },
                            ] + s_join_split(accv.take(k + 1), sl, sr).1);
                            assert(view_exprs(local_projection@) =~= s_join_split(
                                accv.take(k + 1),
                                sl,
                                sr,
                            ).2);
                        }
                        k += 1;
                    }
                    proof {
                        assert(accv.take(accv.len() as int) =~= accv);
                    }
                }
                proof {
                    if accv.len() > 0 {
                        lemma_join_split_rooted(accv, sl, sr);
                        assert(s_exprs_rooted(view_exprs(pushdown_left@)));
                        assert(s_exprs_rooted(view_exprs(pushdown_right@)));
                    } else {
                        assert(view_exprs(pushdown_left@) =~= Seq::<SExpr>::empty());
                        assert(view_exprs(pushdown_right@) =~= Seq::<SExpr>::empty());
                        assert(view_exprs(local_projection@) =~= Seq::<SExpr>::empty());
                    }
                }
                let lp_left = self.push_down(*input_left, pushdown_left);
                let lp_right = self.push_down(*input_right, pushdown_right);
                let builder = LogicalPlanBuilder::from(lp_left).join(
                    lp_right,
                    how,
                    left_on,
                    right_on,
                );
                self.finish_node(local_projection, builder)
            },
        }
    }
}

/// One pending predicate per root column name, in insertion order; a
/// later insertion under the same name replaces the earlier predicate.
pub open spec fn s_pm_get(m: Seq<(Seq<char>, SExpr)>, k: Seq<char>) -> Option<SExpr>
    decreases m.len(),
{
    if m.len() == 0 {
        None
    } else if m[0].0 == k {
        Some(m[0].1)
    } else {
        s_pm_get(m.skip(1), k)
    }
}

/// The mapping with `v` under `k`: replaces the entry of that key in
/// place, or appends one.
pub open spec fn s_pm_insert(m: Seq<(Seq<char>, SExpr)>, k: Seq<char>, v: SExpr) -> Seq<
    (Seq<char>, SExpr),
>
    decreases m.len(),
{
    if m.len() == 0 {
        seq![(k, v)]
    } else if m[0].0 == k {
        seq![(k, v)] + m.skip(1)
    } else {
        seq![m[0]] + s_pm_insert(m.skip(1), k, v)
    }
}

/// The mapping without the entry of key `k`, if there was one.
pub open spec fn s_pm_remove(m: Seq<(Seq<char>, SExpr)>, k: Seq<char>) -> Seq<(Seq<char>, SExpr)>
    decreases m.len(),
{
    if m.len() == 0 {
        m
    } else if m[0].0 == k {
        m.skip(1)
    } else {
        seq![m[0]] + s_pm_remove(m.skip(1), k)
    }
}

/// The pending predicates, in mapping order.
pub open spec fn s_pm_values(m: Seq<(Seq<char>, SExpr)>) -> Seq<SExpr> {
    m.map_values(|p: (Seq<char>, SExpr)| p.1)
}

/// The images of a list of mapping entries, in order.
pub open spec fn view_entries(es: Seq<(String, Expr)>) -> Seq<(Seq<char>, SExpr)> {
    es.map_values(|p: (String, Expr)| (p.0@, p.1@))
}

proof fn lemma_pm_insert_at(m: Seq<(Seq<char>, SExpr)>, k: Seq<char>, v: SExpr, i: int)
    requires
        0 <= i < m.len(),
        m[i].0 == k,
        forall|j: int| 0 <= j < i ==> (#[trigger] m[j]).0 != k,
    ensures
        s_pm_insert(m, k, v) == m.update(i, (k, v)),
    decreases i,
{
    if i == 0 {
        assert(seq![(k, v)] + m.skip(1) =~= m.update(0, (k, v)));
    } else {
        assert(m.skip(1)[i - 1] == m[i]);
        assert(forall|j: int| 0 <= j < i - 1 ==> (#[trigger] m.skip(1)[j]).0 != k);
        lemma_pm_insert_at(m.skip(1), k, v, i - 1);
        assert(seq![m[0]] + m.skip(1).update(i - 1, (k, v)) =~= m.update(i, (k, v)));
    }
}

pub(crate) proof fn lemma_pm_insert_missing(m: Seq<(Seq<char>, SExpr)>, k: Seq<char>, v: SExpr)
    requires
        forall|j: int| 0 <= j < m.len() ==> (#[trigger] m[j]).0 != k,
    ensures
        s_pm_insert(m, k, v) == m.push((k, v)),
    decreases m.len(),
{
    if m.len() == 0 {
        assert(seq![(k, v)] =~= m.push((k, v)));
    } else {
        assert(forall|j: int| 0 <= j < m.skip(1).len() ==> (#[trigger] m.skip(1)[j]).0 != k);
        lemma_pm_insert_missing(m.skip(1), k, v);
        assert(seq![m[0]] + m.skip(1).push((k, v)) =~= m.push((k, v)));
    }
}

proof fn lemma_pm_remove_at(m: Seq<(Seq<char>, SExpr)>, k: Seq<char>, i: int)
    requires
        0 <= i < m.len(),
        m[i].0 == k,
        forall|j: int| 0 <= j < i ==> (#[trigger] m[j]).0 != k,
    ensures
        s_pm_remove(m, k) == m.remove(i),
        s_pm_get(m, k) == Some(m[i].1),
    decreases i,
{
    if i == 0 {
        assert(m.skip(1) =~= m.remove(0));
    } else {
        assert(m.skip(1)[i - 1] == m[i]);
        assert(forall|j: int| 0 <= j < i - 1 ==> (#[trigger] m.skip(1)[j]).0 != k);
        lemma_pm_remove_at(m.skip(1), k, i - 1);
        assert(seq![m[0]] + m.skip(1).remove(i - 1) =~= m.remove(i));
    }
}

proof fn lemma_pm_remove_missing(m: Seq<(Seq<char>, SExpr)>, k: Seq<char>)
    requires
        forall|j: int| 0 <= j < m.len() ==> (#[trigger] m[j]).0 != k,
    ensures
        s_pm_remove(m, k) == m,
        s_pm_get(m, k) is None,
    decreases m.len(),
{
    if m.len() > 0 {
        assert(forall|j: int| 0 <= j < m.skip(1).len() ==> (#[trigger] m.skip(1)[j]).0 != k);
        lemma_pm_remove_missing(m.skip(1), k);
        assert(seq![m[0]] + m.skip(1) =~= m);
    }
}

proof fn lemma_pm_remove_absent(m: Seq<(Seq<char>, SExpr)>, k: Seq<char>)
    requires
        s_pm_get(m, k) is None,
    ensures
        s_pm_remove(m, k) == m,
    decreases m.len(),
{
    if m.len() > 0 {
        lemma_pm_remove_absent(m.skip(1), k);
        assert(seq![m[0]] + m.skip(1) =~= m);
    }
}

/// The predicate accumulator: a mapping from root column name to the one
/// pending predicate on that column, keyed by name so a later rename can
/// retarget it.  Insertion overwrites; iteration follows insertion order.
pub struct PredicateMap {
    entries: Vec<(String, Expr)>,
}

impl View for PredicateMap {
    type V = Seq<(Seq<char>, SExpr)>;

    closed spec fn view(&self) -> Seq<(Seq<char>, SExpr)> {
        view_entries(self.entries@)
    }
}

impl PredicateMap {
    /// An empty mapping.
    pub fn new() -> (r: Self)
        ensures
            r@ == Seq::<(Seq<char>, SExpr)>::empty(),
    {
        let r = PredicateMap { entries: Vec::new() };
        proof {
            assert(r@ =~= Seq::<(Seq<char>, SExpr)>::empty());
        }
        r
    }

    /// Number of pending predicates.
    pub fn len(&self) -> (r: usize)
        ensures
            r == self@.len(),
    {
        self.entries.len()
    }

    /// Tracks `predicate` under `name`, replacing any predicate already
    /// pending under that name.
    pub fn insert(&mut self, name: String, predicate: Expr)
        ensures
            final(self)@ == s_pm_insert(old(self)@, name@, predicate@),
    {
        let ghost m0 = old(self)@;
        let mut i: usize = 0;
        while i < self.entries.len()
            invariant
                i <= self.entries.len(),
                m0 == old(self)@,
                self@ == m0,
                self.entries@.len() == m0.len(),
                forall|j: int| 0 <= j < i ==> (#[trigger] m0[j]).0 != name@,
            decreases self.entries.len() - i,
        {
            proof {
                assert(m0[i as int] == (self.entries@[i as int].0@, self.entries@[i as int].1@));
            }
            if self.entries[i].0.eq(&name) {
                self.entries.remove(i);
                self.entries.insert(i, (name, predicate));
                proof {
                    lemma_pm_insert_at(m0, name@, predicate@, i as int);
                    assert(self@ =~= m0.update(i as int, (name@, predicate@)));
                }
                return;
            }
            i += 1;
        }
        self.entries.push((name, predicate));
        proof {
            lemma_pm_insert_missing(m0, name@, predicate@);
            assert(self@ =~= m0.push((name@, predicate@)));
        }
    }

    /// Takes the predicate pending under `name` out of the mapping, if
    /// there is one.
    pub fn remove(&mut self, name: &String) -> (r: Option<Expr>)
        ensures
            final(self)@ == s_pm_remove(old(self)@, name@),
            match r {
                Some(e) => s_pm_get(old(self)@, name@) == Some(e@),
                None => s_pm_get(old(self)@, name@) is None,
            },
    {
        let ghost m0 = old(self)@;
        let mut i: usize = 0;
        while i < self.entries.len()
            invariant
                i <= self.entries.len(),
                m0 == old(self)@,
                self@ == m0,
                self.entries@.len() == m0.len(),
                forall|j: int| 0 <= j < i ==> (#[trigger] m0[j]).0 != name@,
            decreases self.entries.len() - i,
        {
            proof {
                assert(m0[i as int] == (self.entries@[i as int].0@, self.entries@[i as int].1@));
            }
            if self.entries[i].0.eq(name) {
                let entry = self.entries.remove(i);
                proof {
                    lemma_pm_remove_at(m0, name@, i as int);
                    assert(self@ =~= m0.remove(i as int));
                }
                return Some(entry.1);
            }
            i += 1;
        }
        proof {
            lemma_pm_remove_missing(m0, name@);
        }
        None
    }

    /// The entries, in mapping order, consuming the mapping.
    pub fn into_entries(self) -> (r: Vec<(String, Expr)>)
        ensures
            view_entries(r@) == self@,
    {
        self.entries
    }
}

/// Every selection predicate in the plan has a single root column, and
/// every aliasing projection expression aliases a single-root expression.
pub open spec fn s_pred_plan_rooted(p: SPlan) -> bool
    decreases p,
{
    match p {
        SPlan::Selection { predicate, input } => s_root(predicate) is Some
            && s_pred_plan_rooted(*input),
        SPlan::Projection { expr, input } => s_aliases_rooted(expr) && s_pred_plan_rooted(*input),
        SPlan::Aggregate { input, .. } => s_pred_plan_rooted(*input),
        SPlan::Join { input_left, input_right, .. } => s_pred_plan_rooted(*input_left)
            && s_pred_plan_rooted(*input_right),
        SPlan::Sort { input, .. } => s_pred_plan_rooted(*input),
        SPlan::DataFrameScan { .. } => true,
        SPlan::CsvScan { .. } => true,
    }
}

/// Every aliasing expression of the list aliases a single-root expression.
pub open spec fn s_aliases_rooted(es: Seq<SExpr>) -> bool {
    forall|i: int| 0 <= i < es.len() ==> match #[trigger] es[i] {
        SExpr::Alias { inner, .. } => s_root(*inner) is Some,
        _ => true,
    }
}

/// The plan with every pending predicate materialized as a stacked filter
/// on top, the last one outermost.
pub open spec fn s_stack_filters(lp: SPlan, preds: Seq<SExpr>) -> SPlan
    decreases preds.len(),
{
    if preds.len() == 0 {
        lp
    } else {
        SPlan::Selection {
            predicate: preds.last(),
            input: Box::new(s_stack_filters(lp, preds.drop_last())),
        }
    }
}

/// How one projection expression retargets the pending predicates: an
/// alias whose name is a pending key moves that entry to the root column
/// of the aliased expression, with the predicate itself renamed.
pub open spec fn s_rename_step(e: SExpr, m: Seq<(Seq<char>, SExpr)>) -> Seq<(Seq<char>, SExpr)> {
    match e {
        SExpr::Alias { inner, alias } => match s_pm_get(m, alias) {
            Some(pred) => match s_root(*inner) {
                Some(new_name) => s_pm_insert(
                    s_pm_remove(m, alias),
                    new_name,
                    s_rename(pred, new_name),
                ),
                None => s_pm_remove(m, alias),
            },
            None => m,
        },
        _ => m,
    }
}

/// The pending predicates after every expression of a projection has
/// retargeted them, in list order.
pub open spec fn s_apply_renames(es: Seq<SExpr>, m: Seq<(Seq<char>, SExpr)>) -> Seq<
    (Seq<char>, SExpr),
>
    decreases es.len(),
{
    if es.len() == 0 {
        m
    } else {
        s_rename_step(es.last(), s_apply_renames(es.drop_last(), m))
    }
}

/// How a join routes the pending predicates: each goes to the first side
/// that resolves it (left takes priority), keyed there by its resolved
/// field name; one that neither side resolves stays local above the join.
pub open spec fn s_route(m: Seq<(Seq<char>, SExpr)>, sl: Seq<SField>, sr: Seq<SField>) -> (
    Seq<(Seq<char>, SExpr)>,
    Seq<(Seq<char>, SExpr)>,
    Seq<SExpr>,
)
    decreases m.len(),
{
    if m.len() == 0 {
        (Seq::empty(), Seq::empty(), Seq::empty())
    } else {
        let prev = s_route(m.drop_last(), sl, sr);
        let pred = m.last().1;
        match s_field_of(pred, sl) {
            Some(f) => (s_pm_insert(prev.0, f.name, pred), prev.1, prev.2),
            None => match s_field_of(pred, sr) {
                Some(f) => (prev.0, s_pm_insert(prev.1, f.name, pred), prev.2),
                None => (prev.0, prev.1, prev.2 + seq![pred]),
            },
        }
    }
}

/// What predicate pushdown produces: the plan rewritten so every filter
/// is evaluated as close to the data sources as resolvability allows.
/// Selections disappear into the accumulator on the way down and are
/// re-materialized at a leaf or above a blocking join; projections stay
/// and retarget pending predicates across renames.
pub open spec fn s_pred_push(p: SPlan, m: Seq<(Seq<char>, SExpr)>) -> SPlan
    decreases p,
{
    match p {
        SPlan::Selection { predicate, input } => match s_root(predicate) {
            Some(name) => s_pred_push(*input, s_pm_insert(m, name, predicate)),
            None => s_pred_push(*input, m),
        },
        SPlan::Projection { expr, input } => SPlan::Projection {
            expr,
            input: Box::new(s_pred_push(*input, s_apply_renames(expr, m))),
        },
        SPlan::Aggregate { input, keys, aggs } => SPlan::Aggregate {
            input: Box::new(s_pred_push(*input, m)),
            keys,
            aggs,
        },
        SPlan::Join { input_left, input_right, how, left_on, right_on } => {
            let routed = s_route(m, s_schema(*input_left), s_schema(*input_right));
            s_stack_filters(
                SPlan::Join {
                    input_left: Box::new(s_pred_push(*input_left, routed.0)),
                    input_right: Box::new(s_pred_push(*input_right, routed.1)),
                    how,
                    left_on,
                    right_on,
                },
                routed.2,
            )
        },
        SPlan::Sort { input, column, reverse } => SPlan::Sort {
            input: Box::new(s_pred_push(*input, m)),
            column,
            reverse,
        },
        SPlan::DataFrameScan { .. } => s_stack_filters(p, s_pm_values(m)),
        SPlan::CsvScan { .. } => s_stack_filters(p, s_pm_values(m)),
    }
}

/// Rewrites a plan so that every row filter is evaluated as close to the
/// data sources as legality allows.
pub struct PredicatePushDown {}

impl PredicatePushDown {
    /// Materializes every remaining pending predicate as a stacked filter
    /// directly above a leaf, in mapping order.
    fn finish_at_leaf(&self, lp: LogicalPlan, acc_predicates: PredicateMap) -> (r: LogicalPlan)
        ensures
            r@ == s_stack_filters(lp@, s_pm_values(acc_predicates@)),
    {
        match acc_predicates.len() {
            0 => lp,
            _ => {
                let ghost m = acc_predicates@;
                let entries = acc_predicates.into_entries();
                let mut builder = LogicalPlanBuilder::from(lp);
                proof {
                    assert(s_pm_values(view_entries(entries@.take(0)))
                        =~= Seq::<SExpr>::empty());
                }
                let mut i: usize = 0;
                while i < entries.len()
                    invariant
                        i <= entries.len(),
                        view_entries(entries@) == m,
                        builder@ == s_stack_filters(lp@, s_pm_values(
                            view_entries(entries@.take(i as int)),
                        )),
                    decreases entries.len() - i,
                {
                    proof {
                        assert(s_pm_values(view_entries(entries@.take(i + 1))).drop_last()
                            =~= s_pm_values(view_entries(entries@.take(i as int))));
                        assert(s_pm_values(view_entries(entries@.take(i + 1))).last()
                            == entries@[i as int].1@);
                    }
                    builder = builder.filter(entries[i].1.clone());
                    i += 1;
                }
                proof {
                    assert(entries@.take(entries@.len() as int) =~= entries@);
                }
                builder.build()
            },
        }
    }

    /// Applies the predicates that could not be routed past a node as
    /// stacked filters on top of it.
    fn finish_node(&self, local_predicates: Vec<Expr>, builder: LogicalPlanBuilder) -> (r:
        LogicalPlan)
        ensures
            r@ == s_stack_filters(builder@, view_exprs(local_predicates@)),
    {
        if local_predicates.len() > 0 {
            let mut builder = builder;
            let ghost b0 = builder@;
            proof {
                assert(view_exprs(local_predicates@.take(0)) =~= Seq::<SExpr>::empty());
            }
            let mut i: usize = 0;
            while i < local_predicates.len()
                invariant
                    i <= local_predicates.len(),
                    builder@ == s_stack_filters(b0, view_exprs(local_predicates@.take(i as int))),
                decreases local_predicates.len() - i,
            {
                proof {
                    assert(view_exprs(local_predicates@.take(i + 1)).drop_last() =~= view_exprs(
                        local_predicates@.take(i as int),
                    ));
                    assert(view_exprs(local_predicates@.take(i + 1)).last() == local_predicates@[
                        i as int
                    ]@);
                }
                builder = builder.filter(local_predicates[i].clone());
                i += 1;
            }
            proof {
                assert(local_predicates@.take(local_predicates@.len() as int)
                    =~= local_predicates@);
            }
            builder.build()
        } else {
            builder.build()
        }
    }

    /// Walks the plan top-down carrying the pending predicates: each
    /// selection disappears into the mapping, each projection retargets
    /// pending entries across its renames, and a join routes each pending
    /// predicate to the side that resolves it.
    pub fn push_down(&self, logical_plan: LogicalPlan, acc_predicates: PredicateMap) -> (r:
        LogicalPlan)
        requires
            s_pred_plan_rooted(logical_plan@),
        ensures
            r@ == s_pred_push(logical_plan@, acc_predicates@),
        decreases logical_plan,
    {
        match logical_plan {
            LogicalPlan::Selection { predicate, input } => {
                let mut acc_predicates = acc_predicates;
                let name = expr_to_root_column(&predicate).unwrap();
                acc_predicates.insert(name, predicate);
                self.push_down(*input, acc_predicates)
            },
            LogicalPlan::Projection { expr, input } => {
                let mut acc_predicates = acc_predicates;
                let ghost m0 = acc_predicates@;
                let ghost ev = view_exprs(expr@);
                proof {
                    assert(s_apply_renames(ev.take(0), m0) =~= m0);
                }
                let mut i: usize = 0;
                while i < expr.len()
                    invariant
                        i <= expr.len(),
                        ev == view_exprs(expr@),
                        s_aliases_rooted(ev),
                        acc_predicates@ == s_apply_renames(ev.take(i as int), m0),
                    decreases expr.len() - i,
                {
                    proof {
                        assert(ev.take(i + 1).drop_last() =~= ev.take(i as int));
                        assert(ev.take(i + 1).last() == ev[i as int]);
                        assert(ev[i as int] == expr@[i as int]@);
                    }
                    let ghost mprev = acc_predicates@;
                    match &expr[i] {
                        Expr::Alias(inner, name) => {
                            match acc_predicates.remove(name) {
                                Some(predicate) => {
                                    let new_name = expr_to_root_column(inner).unwrap();
                                    let new_predicate = rename_expr_root_name(
                                        &predicate,
                                        &new_name,
                                    );
                                    acc_predicates.insert(new_name, new_predicate);
                                },
                                None => {
                                    proof {
                                        lemma_pm_remove_absent(mprev, name@);
                                    }
                                },
                            }
                        },
                        _ => {},
                    }
                    proof {
                        assert(acc_predicates@ == s_rename_step(ev[i as int], mprev));
                        assert(acc_predicates@ == s_apply_renames(ev.take(i + 1), m0));
                    }
                    i += 1;
                }
                proof {
                    assert(ev.take(ev.len() as int) =~= ev);
                }
                LogicalPlanBuilder::from(self.push_down(*input, acc_predicates)).project(
                    expr,
                ).build()
            },
            LogicalPlan::DataFrameScan { schema } => {
                let lp = LogicalPlan::DataFrameScan { schema };
                self.finish_at_leaf(lp, acc_predicates)
            },
            LogicalPlan::CsvScan { path, schema, has_header, delimiter } => {
                let lp = LogicalPlan::CsvScan { path, schema, has_header, delimiter };
                self.finish_at_leaf(lp, acc_predicates)
            },
            LogicalPlan::Sort { input, column, reverse } => LogicalPlanBuilder::from(
                self.push_down(*input, acc_predicates),
            ).sort(column, reverse).build(),
            LogicalPlan::Aggregate { input, keys, aggs } => LogicalPlanBuilder::from(
                self.push_down(*input, acc_predicates),
            ).groupby(keys, aggs).build(),
            LogicalPlan::Join { input_left, input_right, how, left_on, right_on } => {
                let ghost sl = s_schema(input_left@);
                let ghost sr = s_schema(input_right@);
                let schema_left = input_left.schema();
                let schema_right = input_right.schema();
                let mut pushdown_left = PredicateMap::new();
                let mut pushdown_right = PredicateMap::new();
                let mut local_predicates: Vec<Expr> = Vec::new();
                let ghost m = acc_predicates@;
                let entries = acc_predicates.into_entries();
                proof {
                    assert(view_entries(entries@.take(0)) =~= Seq::<(Seq<char>, SExpr)>::empty());
                    assert(view_exprs(local_predicates@) =~= Seq::<SExpr>::empty());
                }
                let mut k: usize = 0;
                while k < entries.len()
                    invariant
                        k <= entries.len(),
                        view_entries(entries@) == m,
                        schema_left@ == sl,
                        schema_right@ == sr,
                        pushdown_left@ == s_route(view_entries(entries@.take(k as int)), sl, sr).0,
                        pushdown_right@ == s_route(
                            view_entries(entries@.take(k as int)),
                            sl,
                            sr,
                        ).1,
                        view_exprs(local_predicates@) == s_route(
                            view_entries(entries@.take(k as int)),
                            sl,
                            sr,
                        ).2,
                    decreases entries.len() - k,
                {
                    proof {
                        assert(view_entries(entries@.take(k + 1)).drop_last() =~= view_entries(
                            entries@.take(k as int),
                        ));
                        assert(view_entries(entries@.take(k + 1)).last() == (
                            entries@[k as int].0@,
                            entries@[k as int].1@,
                        ));
                    }
                    let predicate = entries[k].1.clone();
                    if check_down_node(&predicate, &schema_left) {
                        let field = predicate.to_field(&schema_left).unwrap();
                        pushdown_left.insert(field.name, predicate);
                    } else if check_down_node(&predicate, &schema_right) {
                        let field = predicate.to_field(&schema_right).unwrap();
                        pushdown_right.insert(field.name, predicate);
                    } else {
                        local_predicates.push(predicate);
                        proof {
                            assert(view_exprs(local_predicates@) =~= s_route(
                                view_entries(entries@.take(k + 1)),
                                sl,
                                sr,
                            ).2);
                        }
                    }
                    k += 1;
                }
                proof {
                    assert(entries@.take(entries@.len() as int) =~= entries@);
                }
                let lp_left = self.push_down(*input_left, pushdown_left);
                let lp_right = self.push_down(*input_right, pushdown_right);
                let builder = LogicalPlanBuilder::from(lp_left).join(
                    lp_right,
                    how,
                    left_on,
                    right_on,
                );
                self.finish_node(local_predicates, builder)
            },
        }
    }
}

impl Optimize for PredicatePushDown {
    open spec fn accepts(&self, logical_plan: LogicalPlan) -> bool {
        s_pred_plan_rooted(logical_plan@)
    }

    open spec fn optimized(&self, logical_plan: LogicalPlan) -> SPlan {
        s_pred_push(logical_plan@, Seq::empty())
    }

    fn optimize(&self, logical_plan: LogicalPlan) -> (r: LogicalPlan) {
        self.push_down(logical_plan, PredicateMap::new())
    }
}

impl Optimize for ProjectionPushDown {
    open spec fn accepts(&self, logical_plan: LogicalPlan) -> bool {
        s_plan_projections_rooted(logical_plan@)
    }

    open spec fn optimized(&self, logical_plan: LogicalPlan) -> SPlan {
        s_proj_push(logical_plan@, Seq::empty())
    }

    fn optimize(&self, logical_plan: LogicalPlan) -> (r: LogicalPlan) {
        let acc: Vec<Expr> = Vec::new();
        proof {
            assert(view_exprs(acc@) =~= Seq::<SExpr>::empty());
        }
        self.push_down(logical_plan, acc)
    }
}

} // verus!
