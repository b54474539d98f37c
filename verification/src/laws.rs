//! Properties of the two passes, stated and proved over the same
//! mathematical descriptions that the passes' contracts use.

use crate::expr::{s_field_of, s_rename, s_resolves, s_root, SExpr};
use crate::optimizer::{
    lemma_pm_insert_missing, s_apply_renames, s_ends_right, s_finish_at_leaf, s_finish_node,
    s_join_split, s_join_step, s_keep, s_pm_get, s_pm_insert, s_pm_remove, s_pm_values,
    s_pred_push, s_proj_push, s_rename_step, s_route, s_split, s_stack_filters, s_strip_right,
};
use crate::plan::{s_schema, JoinType, SPlan};
use crate::schema::{s_lookup, SField};
use vstd::prelude::*;

verus! {

/// Splitting accumulated projections loses nothing and invents nothing:
/// every requested expression goes down or stays local, and both parts
/// hold requested expressions only.
pub proof fn lemma_keep_contains(acc: Seq<SExpr>, s: Seq<SField>, want: bool, x: SExpr)
    ensures
        s_keep(acc, s, want).contains(x) <==> (acc.contains(x) && s_resolves(x, s) == want),
    decreases acc.len(),
{
    if acc.len() > 0 {
        lemma_keep_contains(acc.drop_last(), s, want, x);
        let prev = s_keep(acc.drop_last(), s, want);
        let whole = s_keep(acc, s, want);
        if whole.contains(x) {
            let idx = choose|idx: int| 0 <= idx < whole.len() && whole[idx] == x;
            if idx < prev.len() {
                assert(prev[idx] == whole[idx]);
                assert(prev.contains(x));
                assert(acc.drop_last().contains(x));
                let j = choose|j: int|
                    0 <= j < acc.drop_last().len() && acc.drop_last()[j] == x;
                assert(acc[j] == x);
                assert(acc.contains(x));
            } else {
                assert(whole[idx] == acc.last());
                assert(acc.contains(x)) by {
                    assert(acc[acc.len() - 1] == acc.last());
                }
            }
        }
        if acc.contains(x) && s_resolves(x, s) == want {
            let j = choose|j: int| 0 <= j < acc.len() && acc[j] == x;
            if j < acc.len() - 1 {
                assert(acc.drop_last()[j] == x);
                assert(acc.drop_last().contains(x));
                assert(prev.contains(x));
                let idx = choose|idx: int| 0 <= idx < prev.len() && prev[idx] == x;
                assert(whole[idx] == x);
            } else {
                assert(acc.last() == x);
                assert(whole[whole.len() - 1] == x);
            }
        }
    }
}

/// Column-need preservation at a split: every accumulated projection
/// survives into exactly one half, and each half holds accumulated
/// projections only.
pub proof fn lemma_split_no_expression_dropped(acc: Seq<SExpr>, down: Seq<SField>)
    ensures
        forall|x: SExpr| acc.contains(x) ==> #[trigger] s_split(acc, down).0.contains(x)
            || s_split(acc, down).1.contains(x),
        forall|x: SExpr| #[trigger] s_split(acc, down).0.contains(x) ==> acc.contains(x),
        forall|x: SExpr| #[trigger] s_split(acc, down).1.contains(x) ==> acc.contains(x),
{
    if down.len() != acc.len() {
        assert forall|x: SExpr|
            acc.contains(x) implies #[trigger] s_split(acc, down).0.contains(x) || s_split(
            acc,
            down,
        ).1.contains(x) by {
            lemma_keep_contains(acc, down, true, x);
            lemma_keep_contains(acc, down, false, x);
        }
        assert forall|x: SExpr| #[trigger]
            s_split(acc, down).0.contains(x) implies acc.contains(x) by {
            lemma_keep_contains(acc, down, true, x);
        }
        assert forall|x: SExpr| #[trigger]
            s_split(acc, down).1.contains(x) implies acc.contains(x) by {
            lemma_keep_contains(acc, down, false, x);
        }
    }
}

/// No-op safety: optimizing a plan whose projection already selects
/// exactly as many expressions as its leaf has fields leaves the plan as
/// it was — no redundant projection is introduced at the leaf.
pub proof fn lemma_no_op_safety(exprs: Seq<SExpr>, leaf: SPlan)
    requires
        leaf is DataFrameScan || leaf is CsvScan,
        s_schema(leaf).len() == exprs.len(),
        exprs.len() > 0,
    ensures
        s_proj_push(SPlan::Projection { expr: exprs, input: Box::new(leaf) }, Seq::empty())
            == (SPlan::Projection { expr: exprs, input: Box::new(leaf) }),
{
    let p = SPlan::Projection { expr: exprs, input: Box::new(leaf) };
    assert(Seq::<SExpr>::empty() + exprs =~= exprs);
    let split = s_split(exprs, s_schema(leaf));
    assert(split.0 =~= Seq::<SExpr>::empty());
    assert(split.1 == exprs);
    assert(s_proj_push(leaf, Seq::empty()) == s_finish_at_leaf(leaf, Seq::empty()));
    assert(s_finish_at_leaf(leaf, Seq::empty()) == leaf);
    assert(s_proj_push(p, Seq::empty()) == s_finish_node(exprs, leaf));
}

/// The projection a join pushes to a side on behalf of one requested
/// expression: the expression itself, or — for an alias — its root
/// column.
pub open spec fn s_join_proj_of(e: SExpr) -> SExpr {
    match e {
        SExpr::Alias { inner, .. } => SExpr::Col {
            name: match s_root(*inner) {
                Some(r) => r,
                None => Seq::empty(),
            },
        },
        _ => e,
    }
}

/// `x` is something the join may push down on behalf of `e`: the pushed
/// projection itself, or the suffix-stripped alias of a `"_right"`
/// collision column.
pub open spec fn s_pushes_for(x: SExpr, e: SExpr) -> bool {
    ||| x == s_join_proj_of(e)
    ||| {
        let rcn = match s_root(s_join_proj_of(e)) {
            Some(r) => r,
            None => Seq::empty(),
        };
        x == (SExpr::Alias {
            inner: Box::new(SExpr::Col { name: s_strip_right(rcn) }),
            alias: rcn,
        })
    }
}

/// `x` is a local projection the join may keep on behalf of `e`: the
/// request itself, its pushed form, or — for an alias — the alias
/// re-applied over the pushed root column.
pub open spec fn s_derives(x: SExpr, e: SExpr) -> bool {
    ||| x == e
    ||| x == s_join_proj_of(e)
    ||| match e {
        SExpr::Alias { inner, alias } => x == (SExpr::Alias {
            inner: Box::new(s_join_proj_of(e)),
            alias,
        }),
        _ => false,
    }
}

/// Column-need preservation and join-key stripping at a join: whatever
/// the join pushes to either side is on behalf of some requested
/// expression, and whatever it keeps as a local projection derives from
/// some requested expression.  In particular, a join key that no
/// requested expression mentions cannot appear among the local
/// projections, so it is stripped again above the join.
pub proof fn lemma_join_split_from_request(acc: Seq<SExpr>, sl: Seq<SField>, sr: Seq<SField>)
    ensures
        forall|x: SExpr| #[trigger] s_join_split(acc, sl, sr).0.contains(x) ==> exists|i: int|
            0 <= i < acc.len() && s_pushes_for(x, #[trigger] acc[i]),
        forall|x: SExpr| #[trigger] s_join_split(acc, sl, sr).1.contains(x) ==> exists|i: int|
            0 <= i < acc.len() && s_pushes_for(x, #[trigger] acc[i]),
        forall|x: SExpr| #[trigger] s_join_split(acc, sl, sr).2.contains(x) ==> exists|i: int|
            0 <= i < acc.len() && s_derives(x, #[trigger] acc[i]),
    decreases acc.len(),
{
    if acc.len() > 0 {
        lemma_join_split_from_request(acc.drop_last(), sl, sr);
        let prev = s_join_split(acc.drop_last(), sl, sr);
        let step = s_join_step(acc.last(), sl, sr);
        let e = acc.last();
        let proj = s_join_proj_of(e);
        assert forall|x: SExpr| step.0.contains(x) || step.1.contains(x) implies s_pushes_for(
            x,
            e,
        ) by {
            match e {
                SExpr::Alias { inner, alias } => {},
                _ => {},
            }
        }
        assert forall|x: SExpr| step.2.contains(x) implies s_derives(x, e) by {
            match e {
                SExpr::Alias { inner, alias } => {},
                _ => {},
            }
        }
        assert forall|x: SExpr| #[trigger]
            s_join_split(acc, sl, sr).0.contains(x) implies exists|i: int|
            0 <= i < acc.len() && s_pushes_for(x, #[trigger] acc[i]) by {
            let whole = s_join_split(acc, sl, sr).0;
            let idx = choose|idx: int| 0 <= idx < whole.len() && whole[idx] == x;
            if idx < prev.0.len() {
                assert(prev.0[idx] == x);
                assert(prev.0.contains(x));
                let i = choose|i: int|
                    0 <= i < acc.drop_last().len() && s_pushes_for(x, acc.drop_last()[i]);
                assert(acc[i] == acc.drop_last()[i]);
                assert(s_pushes_for(x, acc[i]));
            } else {
                assert(step.0[idx - prev.0.len()] == x);
                assert(step.0.contains(x));
                assert(s_pushes_for(x, acc[acc.len() - 1]));
            }
        }
        assert forall|x: SExpr| #[trigger]
            s_join_split(acc, sl, sr).1.contains(x) implies exists|i: int|
            0 <= i < acc.len() && s_pushes_for(x, #[trigger] acc[i]) by {
            let whole = s_join_split(acc, sl, sr).1;
            let idx = choose|idx: int| 0 <= idx < whole.len() && whole[idx] == x;
            if idx < prev.1.len() {
                assert(prev.1[idx] == x);
                assert(prev.1.contains(x));
                let i = choose|i: int|
                    0 <= i < acc.drop_last().len() && s_pushes_for(x, acc.drop_last()[i]);
                assert(acc[i] == acc.drop_last()[i]);
                assert(s_pushes_for(x, acc[i]));
            } else {
                assert(step.1[idx - prev.1.len()] == x);
                assert(step.1.contains(x));
                assert(s_pushes_for(x, acc[acc.len() - 1]));
            }
        }
        assert forall|x: SExpr| #[trigger]
            s_join_split(acc, sl, sr).2.contains(x) implies exists|i: int|
            0 <= i < acc.len() && s_derives(x, #[trigger] acc[i]) by {
            let whole = s_join_split(acc, sl, sr).2;
            let idx = choose|idx: int| 0 <= idx < whole.len() && whole[idx] == x;
            if idx < prev.2.len() {
                assert(prev.2[idx] == x);
                assert(prev.2.contains(x));
                let i = choose|i: int|
                    0 <= i < acc.drop_last().len() && s_derives(x, acc.drop_last()[i]);
                assert(acc[i] == acc.drop_last()[i]);
                assert(s_derives(x, acc[i]));
            } else {
                assert(step.2[idx - prev.2.len()] == x);
                assert(step.2.contains(x));
                assert(s_derives(x, acc[acc.len() - 1]));
            }
        }
    }
}

/// Join-key preservation: with a nonempty request, the pushdown set a
/// join hands each side begins with that side's join key, whether or not
/// the key appears in the requested output.
pub proof fn lemma_join_key_preservation(
    acc: Seq<SExpr>,
    sl: Seq<SField>,
    sr: Seq<SField>,
    left_on: Seq<char>,
    right_on: Seq<char>,
)
    requires
        acc.len() > 0,
    ensures
        (seq![SExpr::Col { name: left_on }] + s_join_split(acc, sl, sr).0)[0] == (SExpr::Col {
            name: left_on,
        }),
        (seq![SExpr::Col { name: right_on }] + s_join_split(acc, sl, sr).1)[0] == (SExpr::Col {
            name: right_on,
        }),
        (seq![SExpr::Col { name: left_on }] + s_join_split(acc, sl, sr).0).contains(
            SExpr::Col { name: left_on },
        ),
        (seq![SExpr::Col { name: right_on }] + s_join_split(acc, sl, sr).1).contains(
            SExpr::Col { name: right_on },
        ),
{
    let pl = seq![SExpr::Col { name: left_on }] + s_join_split(acc, sl, sr).0;
    let pr = seq![SExpr::Col { name: right_on }] + s_join_split(acc, sl, sr).1;
    assert(pl[0] == SExpr::Col { name: left_on });
    assert(pr[0] == SExpr::Col { name: right_on });
}

/// Suffix round-trip: a requested column that carries the `"_right"`
/// collision suffix and resolves on neither join side is pushed to the
/// right side as its unsuffixed column aliased back to the suffixed name,
/// nothing is pushed to the left side for it, and the suffixed column
/// itself stays as a local projection.
pub proof fn lemma_suffix_round_trip(n: Seq<char>, sl: Seq<SField>, sr: Seq<SField>)
    requires
        s_ends_right(n),
        (s_lookup(sl, n) is None),
        (s_lookup(sr, n) is None),
    ensures
        s_join_step(SExpr::Col { name: n }, sl, sr).0 == Seq::<SExpr>::empty(),
        s_join_step(SExpr::Col { name: n }, sl, sr).1 == seq![
            SExpr::Alias { inner: Box::new(SExpr::Col { name: s_strip_right(n) }), alias: n },
        ],
        s_join_step(SExpr::Col { name: n }, sl, sr).2 == seq![SExpr::Col { name: n }],
{
    let e = SExpr::Col { name: n };
    assert(!s_resolves(e, sl));
    assert(!s_resolves(e, sr));
    assert(s_root(e) == Some(n));
    assert(s_join_step(e, sl, sr).2 =~= seq![e]);
}

/// Renaming an expression's column references retargets its root: an
/// expression with a single root column has, after a rename, exactly the
/// new name as its root.
pub proof fn lemma_rename_root(e: SExpr, n: Seq<char>)
    ensures
        s_root(s_rename(e, n)) is None || s_root(s_rename(e, n)) == Some(n),
        s_root(e) is Some ==> s_root(s_rename(e, n)) == Some(n),
    decreases e,
{
    match e {
        SExpr::Col { .. } => {},
        SExpr::Lit { .. } => {},
        SExpr::Alias { inner, alias } => {
            lemma_rename_root(*inner, n);
        },
        SExpr::Bin { left, op, right } => {
            lemma_rename_root(*left, n);
            lemma_rename_root(*right, n);
        },
    }
}

/// Alias-rename consistency: pushing a filter on `x` through a
/// projection that defines `x` as an alias of column `y` re-keys and
/// rewrites the predicate, so the leaf is filtered by a predicate whose
/// root column is `y`, not `x`.
pub proof fn lemma_alias_rename_consistency(
    pred: SExpr,
    nx: Seq<char>,
    ny: Seq<char>,
    schema: Seq<SField>,
)
    requires
        s_root(pred) == Some(nx),
    ensures
        s_pred_push(
            SPlan::Selection {
                predicate: pred,
                input: Box::new(
                    SPlan::Projection {
                        expr: seq![
                            SExpr::Alias { inner: Box::new(SExpr::Col { name: ny }), alias: nx },
                        ],
                        input: Box::new(SPlan::DataFrameScan { schema }),
                    },
                ),
            },
            Seq::empty(),
        ) == (SPlan::Projection {
            expr: seq![SExpr::Alias { inner: Box::new(SExpr::Col { name: ny }), alias: nx }],
            input: Box::new(
                SPlan::Selection {
                    predicate: s_rename(pred, ny),
                    input: Box::new(SPlan::DataFrameScan { schema }),
                },
            ),
        }),
        s_root(s_rename(pred, ny)) == Some(ny),
{
    let leaf = SPlan::DataFrameScan { schema };
    let alias_e = SExpr::Alias { inner: Box::new(SExpr::Col { name: ny }), alias: nx };
    let proj = SPlan::Projection { expr: seq![alias_e], input: Box::new(leaf) };
    let p = SPlan::Selection { predicate: pred, input: Box::new(proj) };
    let m0 = Seq::<(Seq<char>, SExpr)>::empty();
    let m1 = s_pm_insert(m0, nx, pred);
    assert(m1 =~= seq![(nx, pred)]);
    assert(s_pred_push(p, m0) == s_pred_push(proj, m1));
    let es = seq![alias_e];
    assert(es.drop_last() =~= Seq::<SExpr>::empty());
    assert(es.last() == alias_e);
    let renamed = s_rename(pred, ny);
    let m2 = s_apply_renames(es, m1);
    assert(s_apply_renames(Seq::empty(), m1) == m1);
    assert(es.last() == alias_e);
    assert(m2 == s_rename_step(alias_e, m1));
    assert(m1[0].0 == nx);
    assert(s_pm_get(m1, nx) == Some(pred));
    assert(m1.skip(1) =~= Seq::<(Seq<char>, SExpr)>::empty());
    assert(s_pm_remove(m1, nx) == m1.skip(1));
    assert(s_root(SExpr::Col { name: ny }) == Some(ny));
    assert(m2 == s_pm_insert(m1.skip(1), ny, renamed));
    assert(m2 == s_pm_insert(Seq::empty(), ny, renamed));
    assert(m2 =~= seq![(ny, renamed)]);
    assert(s_pred_push(proj, m1) == SPlan::Projection {
        expr: es,
        input: Box::new(s_pred_push(leaf, m2)),
    });
    assert(s_pm_values(m2) =~= seq![renamed]);
    assert(s_pm_values(m2).drop_last() =~= Seq::<SExpr>::empty());
    assert(s_pred_push(leaf, m2) == s_stack_filters(leaf, s_pm_values(m2)));
    assert(s_stack_filters(leaf, Seq::empty()) == leaf);
    assert(s_pm_values(m2).last() == renamed);
    assert(s_stack_filters(leaf, s_pm_values(m2)) == (SPlan::Selection {
        predicate: renamed,
        input: Box::new(leaf),
    }));
    lemma_rename_root(pred, ny);
}

} // verus!

// Predicate completeness: no pending predicate is ever dropped.  The
// definitions and lemmas below characterize exactly where each pending
// predicate is materialized.

verus! {

/// Number of filters in a plan.
pub open spec fn s_count_filters(p: SPlan) -> nat
    decreases p,
{
    match p {
        SPlan::Selection { input, .. } => 1 + s_count_filters(*input),
        SPlan::Projection { input, .. } => s_count_filters(*input),
        SPlan::Aggregate { input, .. } => s_count_filters(*input),
        SPlan::Sort { input, .. } => s_count_filters(*input),
        SPlan::Join { input_left, input_right, .. } => s_count_filters(*input_left)
            + s_count_filters(*input_right),
        SPlan::DataFrameScan { .. } => 0,
        SPlan::CsvScan { .. } => 0,
    }
}

/// Materializing pending predicates stacks exactly one filter per
/// predicate.
pub proof fn lemma_stack_filters_count(lp: SPlan, preds: Seq<SExpr>)
    ensures
        s_count_filters(s_stack_filters(lp, preds)) == s_count_filters(lp) + preds.len(),
    decreases preds.len(),
{
    if preds.len() > 0 {
        lemma_stack_filters_count(lp, preds.drop_last());
    }
}

/// The field name an expression resolves to against a schema.
pub open spec fn s_lname(e: SExpr, s: Seq<SField>) -> Seq<char> {
    match s_field_of(e, s) {
        Some(f) => f.name,
        None => Seq::empty(),
    }
}

/// The pending entries that resolve against the left join side, keyed by
/// their resolved name there, in mapping order.
pub open spec fn s_left_entries(m: Seq<(Seq<char>, SExpr)>, sl: Seq<SField>) -> Seq<
    (Seq<char>, SExpr),
>
    decreases m.len(),
{
    if m.len() == 0 {
        Seq::empty()
    } else {
        s_left_entries(m.drop_last(), sl) + match s_field_of(m.last().1, sl) {
            Some(f) => seq![(f.name, m.last().1)],
            None => Seq::empty(),
        }
    }
}

/// The pending entries that resolve only against the right join side
/// (left takes priority), keyed by their resolved name there, in order.
pub open spec fn s_right_entries(
    m: Seq<(Seq<char>, SExpr)>,
    sl: Seq<SField>,
    sr: Seq<SField>,
) -> Seq<(Seq<char>, SExpr)>
    decreases m.len(),
{
    if m.len() == 0 {
        Seq::empty()
    } else {
        s_right_entries(m.drop_last(), sl, sr) + (if s_field_of(m.last().1, sl) is None {
            match s_field_of(m.last().1, sr) {
                Some(f) => seq![(f.name, m.last().1)],
                None => Seq::empty(),
            }
        } else {
            Seq::empty()
        })
    }
}

/// The pending predicates that resolve against neither join side, in
/// order: these stay local above the join.
pub open spec fn s_local_preds(
    m: Seq<(Seq<char>, SExpr)>,
    sl: Seq<SField>,
    sr: Seq<SField>,
) -> Seq<SExpr>
    decreases m.len(),
{
    if m.len() == 0 {
        Seq::empty()
    } else {
        s_local_preds(m.drop_last(), sl, sr) + (if s_field_of(m.last().1, sl) is None
            && s_field_of(m.last().1, sr) is None {
            seq![m.last().1]
        } else {
            Seq::empty()
        })
    }
}

/// Each pending predicate is routed to exactly one of the three places.
pub proof fn lemma_route_counts(m: Seq<(Seq<char>, SExpr)>, sl: Seq<SField>, sr: Seq<SField>)
    ensures
        s_left_entries(m, sl).len() + s_right_entries(m, sl, sr).len() + s_local_preds(
            m,
            sl,
            sr,
        ).len() == m.len(),
    decreases m.len(),
{
    if m.len() > 0 {
        lemma_route_counts(m.drop_last(), sl, sr);
    }
}

/// Entry `j` of the left-routed entries comes from some pending entry
/// whose predicate the left schema resolves.
pub open spec fn s_left_entry_from(m: Seq<(Seq<char>, SExpr)>, sl: Seq<SField>, j: int) -> bool {
    exists|i: int|
        0 <= i < m.len() && s_field_of((#[trigger] m[i]).1, sl) is Some && s_left_entries(
            m,
            sl,
        )[j] == (s_lname(m[i].1, sl), m[i].1)
}

/// Entry `j` of the right-routed entries comes from some pending entry
/// whose predicate only the right schema resolves.
pub open spec fn s_right_entry_from(
    m: Seq<(Seq<char>, SExpr)>,
    sl: Seq<SField>,
    sr: Seq<SField>,
    j: int,
) -> bool {
    exists|i: int|
        0 <= i < m.len() && s_field_of((#[trigger] m[i]).1, sl) is None && s_field_of(
            m[i].1,
            sr,
        ) is Some && s_right_entries(m, sl, sr)[j] == (s_lname(m[i].1, sr), m[i].1)
}

proof fn lemma_left_entries_src(m: Seq<(Seq<char>, SExpr)>, sl: Seq<SField>)
    ensures
        forall|j: int| 0 <= j < s_left_entries(m, sl).len() ==> s_left_entry_from(m, sl, j),
    decreases m.len(),
{
    if m.len() > 0 {
        lemma_left_entries_src(m.drop_last(), sl);
        let prev = s_left_entries(m.drop_last(), sl);
        assert forall|j: int| 0 <= j < s_left_entries(m, sl).len() implies s_left_entry_from(
            m,
            sl,
            j,
        ) by {
            let whole = s_left_entries(m, sl);
            if j < prev.len() {
                assert(whole[j] == prev[j]);
                assert(s_left_entry_from(m.drop_last(), sl, j));
                let i = choose|i: int|
                    0 <= i < m.drop_last().len() && s_field_of(
                        (#[trigger] m.drop_last()[i]).1,
                        sl,
                    ) is Some && s_left_entries(m.drop_last(), sl)[j] == (
                        s_lname(m.drop_last()[i].1, sl),
                        m.drop_last()[i].1,
                    );
                assert(m.drop_last()[i] == m[i]);
                assert(s_field_of(m[i].1, sl) is Some && whole[j] == (
                    s_lname(m[i].1, sl),
                    m[i].1,
                ));
            } else {
                let i = m.len() - 1;
                assert(m[i] == m.last());
                assert(s_field_of(m[i].1, sl) is Some && whole[j] == (
                    s_lname(m[i].1, sl),
                    m[i].1,
                ));
            }
        }
    }
}

proof fn lemma_right_entries_src(m: Seq<(Seq<char>, SExpr)>, sl: Seq<SField>, sr: Seq<SField>)
    ensures
        forall|j: int| 0 <= j < s_right_entries(m, sl, sr).len() ==> s_right_entry_from(
            m,
            sl,
            sr,
            j,
        ),
    decreases m.len(),
{
    if m.len() > 0 {
        lemma_right_entries_src(m.drop_last(), sl, sr);
        let prev = s_right_entries(m.drop_last(), sl, sr);
        assert forall|j: int|
            0 <= j < s_right_entries(m, sl, sr).len() implies s_right_entry_from(
            m,
            sl,
            sr,
            j,
        ) by {
            let whole = s_right_entries(m, sl, sr);
            if j < prev.len() {
                assert(whole[j] == prev[j]);
                assert(s_right_entry_from(m.drop_last(), sl, sr, j));
                let i = choose|i: int|
                    0 <= i < m.drop_last().len() && s_field_of(
                        (#[trigger] m.drop_last()[i]).1,
                        sl,
                    ) is None && s_field_of(m.drop_last()[i].1, sr) is Some && s_right_entries(
                        m.drop_last(),
                        sl,
                        sr,
                    )[j] == (s_lname(m.drop_last()[i].1, sr), m.drop_last()[i].1);
                assert(m.drop_last()[i] == m[i]);
                assert(s_field_of(m[i].1, sl) is None && s_field_of(m[i].1, sr) is Some
                    && whole[j] == (s_lname(m[i].1, sr), m[i].1));
            } else {
                let i = m.len() - 1;
                assert(m[i] == m.last());
                assert(s_field_of(m[i].1, sl) is None && s_field_of(m[i].1, sr) is Some
                    && whole[j] == (s_lname(m[i].1, sr), m[i].1));
            }
        }
    }
}

/// No two pending predicates that a join would route to the same side
/// resolve there under the same field name.  Without this, a later
/// predicate overwrites an earlier one in the side's accumulator — the
/// one behavior under which a pending predicate can be lost.
pub open spec fn s_route_names_distinct(
    m: Seq<(Seq<char>, SExpr)>,
    sl: Seq<SField>,
    sr: Seq<SField>,
) -> bool {
    (forall|i: int, j: int|
        0 <= i < j < m.len() && s_field_of((#[trigger] m[i]).1, sl) is Some && s_field_of(
            (#[trigger] m[j]).1,
            sl,
        ) is Some ==> s_lname(m[i].1, sl) != s_lname(m[j].1, sl)) && (forall|i: int, j: int|
        0 <= i < j < m.len() && s_field_of((#[trigger] m[i]).1, sl) is None && s_field_of(
            m[i].1,
            sr,
        ) is Some && s_field_of((#[trigger] m[j]).1, sl) is None && s_field_of(
            m[j].1,
            sr,
        ) is Some ==> s_lname(m[i].1, sr) != s_lname(m[j].1, sr))
}

/// Predicate completeness at a join: when no two same-side predicates
/// collide on a resolved name, routing partitions the pending predicates
/// exactly — those the left schema resolves go left, those only the
/// right schema resolves go right, the rest stay local — and none is
/// dropped or duplicated.
pub proof fn lemma_route_no_predicate_dropped(
    m: Seq<(Seq<char>, SExpr)>,
    sl: Seq<SField>,
    sr: Seq<SField>,
)
    requires
        s_route_names_distinct(m, sl, sr),
    ensures
        s_route(m, sl, sr).0 == s_left_entries(m, sl),
        s_route(m, sl, sr).1 == s_right_entries(m, sl, sr),
        s_route(m, sl, sr).2 == s_local_preds(m, sl, sr),
    decreases m.len(),
{
    if m.len() > 0 {
        assert(s_route_names_distinct(m.drop_last(), sl, sr)) by {
            assert(forall|i: int| 0 <= i < m.drop_last().len() ==> #[trigger] m.drop_last()[i]
                == m[i]);
        }
        lemma_route_no_predicate_dropped(m.drop_last(), sl, sr);
        let prev = s_route(m.drop_last(), sl, sr);
        let pred = m.last().1;
        let li = m.len() - 1;
        assert(m[li] == m.last());
        match s_field_of(pred, sl) {
            Some(f) => {
                lemma_left_entries_src(m.drop_last(), sl);
                assert forall|j: int| 0 <= j < prev.0.len() implies (#[trigger] prev.0[j]).0
                    != f.name by {
                    assert(s_left_entry_from(m.drop_last(), sl, j));
                    let i = choose|i: int|
                        0 <= i < m.drop_last().len() && s_field_of(
                            (#[trigger] m.drop_last()[i]).1,
                            sl,
                        ) is Some && s_left_entries(m.drop_last(), sl)[j] == (
                            s_lname(m.drop_last()[i].1, sl),
                            m.drop_last()[i].1,
                        );
                    assert(m.drop_last()[i] == m[i]);
                    assert(s_lname(m[i].1, sl) != s_lname(m[li].1, sl));
                    assert(s_lname(m[li].1, sl) == f.name);
                }
                lemma_pm_insert_missing(prev.0, f.name, pred);
                assert(prev.0.push((f.name, pred)) =~= s_left_entries(m, sl));
                assert(s_right_entries(m, sl, sr) =~= prev.1);
                assert(s_local_preds(m, sl, sr) =~= prev.2);
            },
            None => match s_field_of(pred, sr) {
                Some(f) => {
                    lemma_right_entries_src(m.drop_last(), sl, sr);
                    assert forall|j: int| 0 <= j < prev.1.len() implies (#[trigger] prev.1[j]).0
                        != f.name by {
                        assert(s_right_entry_from(m.drop_last(), sl, sr, j));
                        let i = choose|i: int|
                            0 <= i < m.drop_last().len() && s_field_of(
                                (#[trigger] m.drop_last()[i]).1,
                                sl,
                            ) is None && s_field_of(m.drop_last()[i].1, sr) is Some
                                && s_right_entries(m.drop_last(), sl, sr)[j] == (
                                s_lname(m.drop_last()[i].1, sr),
                                m.drop_last()[i].1,
                            );
                        assert(m.drop_last()[i] == m[i]);
                        assert(s_lname(m[i].1, sr) != s_lname(m[li].1, sr));
                        assert(s_lname(m[li].1, sr) == f.name);
                    }
                    lemma_pm_insert_missing(prev.1, f.name, pred);
                    assert(prev.1.push((f.name, pred)) =~= s_right_entries(m, sl, sr));
                    assert(s_left_entries(m, sl) =~= prev.0);
                    assert(s_local_preds(m, sl, sr) =~= prev.2);
                },
                None => {
                    assert(prev.2 + seq![pred] =~= s_local_preds(m, sl, sr));
                    assert(s_left_entries(m, sl) =~= prev.0);
                    assert(s_right_entries(m, sl, sr) =~= prev.1);
                },
            },
        }
    }
}

/// Predicate completeness, end to end, for a join of two leaves: pushing
/// any collision-free pending predicates through it materializes every
/// one of them exactly once — the total number of filters in the
/// rewritten plan equals the number of pending predicates, with each
/// filter standing over the side that resolves it or locally above the
/// join.
pub proof fn lemma_predicate_completeness_at_join(
    ll: SPlan,
    lr: SPlan,
    how: JoinType,
    left_on: Seq<char>,
    right_on: Seq<char>,
    m: Seq<(Seq<char>, SExpr)>,
)
    requires
        ll is DataFrameScan || ll is CsvScan,
        lr is DataFrameScan || lr is CsvScan,
        s_route_names_distinct(m, s_schema(ll), s_schema(lr)),
    ensures
        s_count_filters(
            s_pred_push(
                SPlan::Join {
                    input_left: Box::new(ll),
                    input_right: Box::new(lr),
                    how,
                    left_on,
                    right_on,
                },
                m,
            ),
        ) == m.len(),
{
    let p = SPlan::Join {
        input_left: Box::new(ll),
        input_right: Box::new(lr),
        how,
        left_on,
        right_on,
    };
    let sl = s_schema(ll);
    let sr = s_schema(lr);
    let routed = s_route(m, sl, sr);
    lemma_route_no_predicate_dropped(m, sl, sr);
    lemma_route_counts(m, sl, sr);
    assert(s_pred_push(ll, routed.0) == s_stack_filters(ll, s_pm_values(routed.0)));
    assert(s_pred_push(lr, routed.1) == s_stack_filters(lr, s_pm_values(routed.1)));
    lemma_stack_filters_count(ll, s_pm_values(routed.0));
    lemma_stack_filters_count(lr, s_pm_values(routed.1));
    assert(s_count_filters(ll) == 0);
    assert(s_count_filters(lr) == 0);
    let rebuilt = SPlan::Join {
        input_left: Box::new(s_pred_push(ll, routed.0)),
        input_right: Box::new(s_pred_push(lr, routed.1)),
        how,
        left_on,
        right_on,
    };
    assert(s_count_filters(rebuilt) == routed.0.len() + routed.1.len());
    lemma_stack_filters_count(rebuilt, routed.2);
    assert(s_pred_push(p, m) == s_stack_filters(rebuilt, routed.2));
}

} // verus!

verus! {

/// Join-key preservation, end to end, for a join of two leaves: with a
/// nonempty request, each leaf ends up under a projection whose first
/// expression is that side's join key — the key is requested from the
/// side even when it appears nowhere in the requested output.
pub proof fn lemma_join_keys_reach_leaves(
    ll: SPlan,
    lr: SPlan,
    how: JoinType,
    left_on: Seq<char>,
    right_on: Seq<char>,
    acc: Seq<SExpr>,
)
    requires
        ll is DataFrameScan || ll is CsvScan,
        lr is DataFrameScan || lr is CsvScan,
        acc.len() > 0,
    ensures
        ({
            let split = s_join_split(acc, s_schema(ll), s_schema(lr));
            let pl = seq![SExpr::Col { name: left_on }] + split.0;
            let pr = seq![SExpr::Col { name: right_on }] + split.1;
            s_proj_push(
                SPlan::Join {
                    input_left: Box::new(ll),
                    input_right: Box::new(lr),
                    how,
                    left_on,
                    right_on,
                },
                acc,
            ) == s_finish_node(
                split.2,
                SPlan::Join {
                    input_left: Box::new(SPlan::Projection { expr: pl, input: Box::new(ll) }),
                    input_right: Box::new(SPlan::Projection { expr: pr, input: Box::new(lr) }),
                    how,
                    left_on,
                    right_on,
                },
            ) && pl[0] == (SExpr::Col { name: left_on }) && pr[0] == (SExpr::Col {
                name: right_on,
            })
        }),
{
    let p = SPlan::Join {
        input_left: Box::new(ll),
        input_right: Box::new(lr),
        how,
        left_on,
        right_on,
    };
    let split = s_join_split(acc, s_schema(ll), s_schema(lr));
    let pl = seq![SExpr::Col { name: left_on }] + split.0;
    let pr = seq![SExpr::Col { name: right_on }] + split.1;
    assert(pl.len() > 0);
    assert(pr.len() > 0);
    assert(s_proj_push(ll, pl) == s_finish_at_leaf(ll, pl));
    assert(s_proj_push(lr, pr) == s_finish_at_leaf(lr, pr));
    assert(s_finish_at_leaf(ll, pl) == (SPlan::Projection { expr: pl, input: Box::new(ll) }));
    assert(s_finish_at_leaf(lr, pr) == (SPlan::Projection { expr: pr, input: Box::new(lr) }));
}

} // verus!

verus! {

/// A scan leaf.
pub open spec fn s_is_leaf(p: SPlan) -> bool {
    p is DataFrameScan || p is CsvScan
}

/// The expressions of the projection standing directly above the leaf of
/// a join-free plan; empty when the leaf is bare.
pub open spec fn s_leaf_request(p: SPlan) -> Seq<SExpr>
    decreases p,
{
    match p {
        SPlan::Projection { expr, input } => if s_is_leaf(*input) {
            expr
        } else {
            s_leaf_request(*input)
        },
        SPlan::Selection { input, .. } => s_leaf_request(*input),
        SPlan::Sort { input, .. } => s_leaf_request(*input),
        SPlan::Aggregate { input, .. } => s_leaf_request(*input),
        SPlan::Join { .. } => Seq::empty(),
        SPlan::DataFrameScan { .. } => Seq::empty(),
        SPlan::CsvScan { .. } => Seq::empty(),
    }
}

/// The plan holds no join.
pub open spec fn s_no_join(p: SPlan) -> bool
    decreases p,
{
    match p {
        SPlan::Projection { input, .. } => s_no_join(*input),
        SPlan::Selection { input, .. } => s_no_join(*input),
        SPlan::Sort { input, .. } => s_no_join(*input),
        SPlan::Aggregate { input, .. } => s_no_join(*input),
        SPlan::Join { .. } => false,
        SPlan::DataFrameScan { .. } => true,
        SPlan::CsvScan { .. } => true,
    }
}

/// Some projection node of the plan requests `x`.
pub open spec fn s_projected(p: SPlan, x: SExpr) -> bool
    decreases p,
{
    match p {
        SPlan::Projection { expr, input } => expr.contains(x) || s_projected(*input, x),
        SPlan::Selection { input, .. } => s_projected(*input, x),
        SPlan::Sort { input, .. } => s_projected(*input, x),
        SPlan::Aggregate { input, .. } => s_projected(*input, x),
        SPlan::Join { .. } => false,
        SPlan::DataFrameScan { .. } => false,
        SPlan::CsvScan { .. } => false,
    }
}

/// Column-need preservation for join-free plans: after projection
/// pushdown, every expression in the projection standing at the leaf is
/// either pending in the accumulator or requested by some projection of
/// the original plan — the pass materializes nothing that nobody asked
/// for.
pub proof fn lemma_column_need_preservation(p: SPlan, acc: Seq<SExpr>)
    requires
        s_no_join(p),
    ensures
        forall|x: SExpr| #[trigger] s_leaf_request(s_proj_push(p, acc)).contains(x)
            ==> acc.contains(x) || s_projected(p, x),
    decreases p,
{
    match p {
        SPlan::DataFrameScan { .. } => {
            if acc.len() > 0 {
                assert(s_proj_push(p, acc) == (SPlan::Projection {
                    expr: acc,
                    input: Box::new(p),
                }));
                assert(s_leaf_request(s_proj_push(p, acc)) == acc);
            }
        },
        SPlan::CsvScan { .. } => {
            if acc.len() > 0 {
                assert(s_proj_push(p, acc) == (SPlan::Projection {
                    expr: acc,
                    input: Box::new(p),
                }));
                assert(s_leaf_request(s_proj_push(p, acc)) == acc);
            }
        },
        SPlan::Sort { input, column, reverse } => {
            lemma_column_need_preservation(*input, acc);
            assert forall|x: SExpr| #[trigger]
                s_leaf_request(s_proj_push(p, acc)).contains(x) implies acc.contains(x)
                || s_projected(p, x) by {
                assert(s_leaf_request(s_proj_push(p, acc)) == s_leaf_request(
                    s_proj_push(*input, acc),
                ));
            }
        },
        SPlan::Selection { predicate, input } => {
            lemma_column_need_preservation(*input, acc);
            assert forall|x: SExpr| #[trigger]
                s_leaf_request(s_proj_push(p, acc)).contains(x) implies acc.contains(x)
                || s_projected(p, x) by {
                assert(s_leaf_request(s_proj_push(p, acc)) == s_leaf_request(
                    s_proj_push(*input, acc),
                ));
            }
        },
        SPlan::Projection { expr, input } => {
            let acc2 = acc + expr;
            let split = s_split(acc2, s_schema(*input));
            let down = split.0;
            let local = split.1;
            let rewritten = s_proj_push(*input, down);
            lemma_column_need_preservation(*input, down);
            lemma_split_no_expression_dropped(acc2, s_schema(*input));
            assert(s_proj_push(p, acc) == s_finish_node(local, rewritten));
            assert forall|x: SExpr| #[trigger]
                s_leaf_request(s_proj_push(p, acc)).contains(x) implies acc.contains(x)
                || s_projected(p, x) by {
                if local.len() > 0 && s_is_leaf(rewritten) {
                    assert(s_leaf_request(s_proj_push(p, acc)) == local);
                    assert(acc2.contains(x));
                } else {
                    if local.len() > 0 {
                        assert(s_leaf_request(s_proj_push(p, acc)) == s_leaf_request(rewritten));
                    } else {
                        assert(s_proj_push(p, acc) == rewritten);
                    }
                    assert(down.contains(x) || s_projected(*input, x));
                    if down.contains(x) {
                        assert(acc2.contains(x));
                    }
                }
                if acc2.contains(x) {
                    let idx = choose|idx: int| 0 <= idx < acc2.len() && acc2[idx] == x;
                    if idx < acc.len() {
                        assert(acc[idx] == x);
                        assert(acc.contains(x));
                    } else {
                        assert(expr[idx - acc.len()] == x);
                        assert(expr.contains(x));
                    }
                }
            }
        },
        SPlan::Aggregate { input, keys, aggs } => {
            let split = s_split(acc, s_schema(*input));
            let down = split.0;
            let local = split.1;
            let rewritten = s_proj_push(*input, down);
            let agg = SPlan::Aggregate { input: Box::new(rewritten), keys, aggs };
            lemma_column_need_preservation(*input, down);
            lemma_split_no_expression_dropped(acc, s_schema(*input));
            assert(s_proj_push(p, acc) == s_finish_node(local, agg));
            assert forall|x: SExpr| #[trigger]
                s_leaf_request(s_proj_push(p, acc)).contains(x) implies acc.contains(x)
                || s_projected(p, x) by {
                assert(s_leaf_request(agg) == s_leaf_request(rewritten));
                if local.len() > 0 {
                    assert(s_proj_push(p, acc) == (SPlan::Projection {
                        expr: local,
                        input: Box::new(agg),
                    }));
                    assert(s_leaf_request(s_proj_push(p, acc)) == s_leaf_request(agg));
                } else {
                    assert(s_proj_push(p, acc) == agg);
                }
                assert(down.contains(x) || s_projected(*input, x));
            }
        },
        SPlan::Join { .. } => {},
    }
}

} // verus!
