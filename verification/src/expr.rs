//! Expression trees: column references, aliases, literals and binary
//! expressions.  An expression has at most one *root column* — the single
//! base column it ultimately reads from; an alias renames the output of an
//! expression without changing which column it reads.

use crate::schema::{s_lookup, DataType, Field, SField, Schema};
use vstd::prelude::*;
use vstd::string::StringExecFns;

verus! {

/// A binary operator.
#[derive(Clone, Copy, PartialEq, Eq, Structural, Debug)]
pub enum Operator {
    Eq,
    NotEq,
    Lt,
    LtEq,
    Gt,
    GtEq,
    Plus,
    Minus,
    Multiply,
    Divide,
    And,
    Or,
}

impl Operator {
    /// Whether the operator produces a boolean, whatever its operands.
    pub open spec fn is_comparison(self) -> bool {
        matches!(
            self,
            Operator::Eq | Operator::NotEq | Operator::Lt | Operator::LtEq | Operator::Gt
                | Operator::GtEq | Operator::And | Operator::Or,
        )
    }
}

/// Mathematical image of a [`LiteralValue`].
#[verifier::ext_equal]
#[allow(inconsistent_fields)]
pub ghost enum SLiteral {
    Boolean { value: bool },
    Int { value: i64 },
    Str { value: Seq<char> },
}

/// A literal scalar value.
#[derive(Debug, PartialEq)]
pub enum LiteralValue {
    Boolean(bool),
    Int(i64),
    Utf8(String),
}

impl View for LiteralValue {
    type V = SLiteral;

    open spec fn view(&self) -> SLiteral {
        match self {
            LiteralValue::Boolean(b) => SLiteral::Boolean { value: *b },
            LiteralValue::Int(i) => SLiteral::Int { value: *i },
            LiteralValue::Utf8(s) => SLiteral::Str { value: s@ },
        }
    }
}

impl Clone for LiteralValue {
    fn clone(&self) -> (r: Self)
        ensures
            r == *self,
    {
        match self {
            LiteralValue::Boolean(b) => LiteralValue::Boolean(*b),
            LiteralValue::Int(i) => LiteralValue::Int(*i),
            LiteralValue::Utf8(s) => LiteralValue::Utf8(s.clone()),
        }
    }
}

/// The data type a literal evaluates to.
pub open spec fn s_lit_dtype(v: SLiteral) -> DataType {
    match v {
        SLiteral::Boolean { .. } => DataType::Boolean,
        SLiteral::Int { .. } => DataType::Int64,
        SLiteral::Str { .. } => DataType::Utf8,
    }
}

/// Mathematical image of an [`Expr`].
#[verifier::ext_equal]
pub ghost enum SExpr {
    Col { name: Seq<char> },
    Lit { value: SLiteral },
    Alias { inner: Box<SExpr>, alias: Seq<char> },
    Bin { left: Box<SExpr>, op: Operator, right: Box<SExpr> },
}

/// An expression evaluated over the rows of a plan node.
#[derive(Debug, PartialEq)]
pub enum Expr {
    /// A reference to the column of that name.
    Column(String),
    /// A constant.
    Literal(LiteralValue),
    /// The inner expression, renamed in the output.
    Alias(Box<Expr>, String),
    /// A binary combination of two expressions.
    BinaryExpr { left: Box<Expr>, op: Operator, right: Box<Expr> },
}

/// The image of an expression tree.
pub open spec fn view_expr(e: Expr) -> SExpr
    decreases e,
{
    match e {
        Expr::Column(n) => SExpr::Col { name: n@ },
        Expr::Literal(v) => SExpr::Lit { value: v@ },
        Expr::Alias(inner, n) => SExpr::Alias { inner: Box::new(view_expr(*inner)), alias: n@ },
        Expr::BinaryExpr { left, op, right } => SExpr::Bin {
            left: Box::new(view_expr(*left)),
            op,
            right: Box::new(view_expr(*right)),
        },
    }
}

impl View for Expr {
    type V = SExpr;

    open spec fn view(&self) -> SExpr {
        view_expr(*self)
    }
}

impl Clone for Expr {
    fn clone(&self) -> (r: Self)
        ensures
            r == *self,
        decreases *self,
    {
        match self {
            Expr::Column(n) => Expr::Column(n.clone()),
            Expr::Literal(v) => Expr::Literal(v.clone()),
            Expr::Alias(inner, n) => Expr::Alias(Box::new((&**inner).clone()), n.clone()),
            Expr::BinaryExpr { left, op, right } => Expr::BinaryExpr {
                left: Box::new((&**left).clone()),
                op: *op,
                right: Box::new((&**right).clone()),
            },
        }
    }
}

/// The single root column an expression reads from, if it has exactly one.
/// A binary expression over two different root columns has none.
pub open spec fn s_root(e: SExpr) -> Option<Seq<char>>
    decreases e,
{
    match e {
        SExpr::Col { name } => Some(name),
        SExpr::Lit { .. } => None,
        SExpr::Alias { inner, .. } => s_root(*inner),
        SExpr::Bin { left, right, .. } => match (s_root(*left), s_root(*right)) {
            (Some(a), Some(b)) => if a == b {
                Some(a)
            } else {
                None
            },
            (Some(a), None) => Some(a),
            (None, Some(b)) => Some(b),
            (None, None) => None,
        },
    }
}

/// The expression with every column reference retargeted to `n`.
pub open spec fn s_rename(e: SExpr, n: Seq<char>) -> SExpr
    decreases e,
{
    match e {
        SExpr::Col { .. } => SExpr::Col { name: n },
        SExpr::Lit { .. } => e,
        SExpr::Alias { inner, alias } => SExpr::Alias {
            inner: Box::new(s_rename(*inner, n)),
            alias,
        },
        SExpr::Bin { left, op, right } => SExpr::Bin {
            left: Box::new(s_rename(*left, n)),
            op,
            right: Box::new(s_rename(*right, n)),
        },
    }
}

/// The field an expression resolves to against a schema, if it can be
/// evaluated there: every column it references must be a field of the
/// schema.  An alias renames the resolved field; a comparison yields a
/// boolean field.
pub open spec fn s_field_of(e: SExpr, s: Seq<SField>) -> Option<SField>
    decreases e,
{
    match e {
        SExpr::Col { name } => s_lookup(s, name),
        SExpr::Lit { value } => Some(SField { name: "literal"@, dtype: s_lit_dtype(value) }),
        SExpr::Alias { inner, alias } => match s_field_of(*inner, s) {
            Some(f) => Some(SField { name: alias, dtype: f.dtype }),
            None => None,
        },
        SExpr::Bin { left, op, right } => match (s_field_of(*left, s), s_field_of(*right, s)) {
            (Some(lf), Some(_)) => Some(
                SField {
                    name: lf.name,
                    dtype: if op.is_comparison() {
                        DataType::Boolean
                    } else {
                        lf.dtype
                    },
                },
            ),
            _ => None,
        },
    }
}

/// Whether the expression can be evaluated against the schema.
pub open spec fn s_resolves(e: SExpr, s: Seq<SField>) -> bool {
    s_field_of(e, s) is Some
}

impl Expr {
    /// Resolves the expression against `schema`: the field it evaluates to,
    /// or `None` when some column it references is not in the schema.
    pub fn to_field(&self, schema: &Schema) -> (r: Option<Field>)
        ensures
            match r {
                Some(f) => s_field_of(self@, schema@) == Some(f@),
                None => s_field_of(self@, schema@) is None,
            },
        decreases *self,
    {
        match self {
            Expr::Column(n) => match schema.field(n) {
                Some(f) => Some(f.clone()),
                None => None,
            },
            Expr::Literal(v) => {
                let dtype = match v {
                    LiteralValue::Boolean(_) => DataType::Boolean,
                    LiteralValue::Int(_) => DataType::Int64,
                    LiteralValue::Utf8(_) => DataType::Utf8,
                };
                Some(Field::new(String::from_str("literal"), dtype))
            },
            Expr::Alias(inner, n) => match inner.to_field(schema) {
                Some(f) => Some(Field::new(n.clone(), f.dtype)),
                None => None,
            },
            Expr::BinaryExpr { left, op, right } => match (
                left.to_field(schema),
                right.to_field(schema),
            ) {
                (Some(lf), Some(_)) => {
                    let dtype = match op {
                        Operator::Plus | Operator::Minus | Operator::Multiply
                            | Operator::Divide => lf.dtype,
                        _ => DataType::Boolean,
                    };
                    Some(Field::new(lf.name, dtype))
                },
                _ => None,
            },
        }
    }

    /// The inner expression renamed in the output to `name`.
    pub fn alias(self, name: &str) -> (r: Expr)
        ensures
            r@ == (SExpr::Alias { inner: Box::new(self@), alias: name@ }),
    {
        Expr::Alias(Box::new(self), name.to_owned())
    }
}

/// A reference to the column `name`.
pub fn col(name: &str) -> (r: Expr)
    ensures
        r@ == (SExpr::Col { name: name@ }),
{
    Expr::Column(name.to_owned())
}

/// The single root column `expr` reads from, or `None` when it has zero
/// root columns, or spans two different ones.
pub fn expr_to_root_column(expr: &Expr) -> (r: Option<String>)
    ensures
        match r {
            Some(n) => s_root(expr@) == Some(n@),
            None => s_root(expr@) is None,
        },
    decreases *expr,
{
    match expr {
        Expr::Column(n) => Some(n.clone()),
        Expr::Literal(_) => None,
        Expr::Alias(inner, _) => expr_to_root_column(inner),
        Expr::BinaryExpr { left, right, .. } => match (
            expr_to_root_column(left),
            expr_to_root_column(right),
        ) {
            (Some(a), Some(b)) => if a.eq(&b) {
                Some(a)
            } else {
                None
            },
            (Some(a), None) => Some(a),
            (None, Some(b)) => Some(b),
            (None, None) => None,
        },
    }
}

/// A copy of `expr` with every column reference retargeted to `name`.
pub fn rename_expr_root_name(expr: &Expr, name: &String) -> (r: Expr)
    ensures
        r@ == s_rename(expr@, name@),
    decreases *expr,
{
    match expr {
        Expr::Column(_) => Expr::Column(name.clone()),
        Expr::Literal(v) => Expr::Literal(v.clone()),
        Expr::Alias(inner, n) => Expr::Alias(
            Box::new(rename_expr_root_name(inner, name)),
            n.clone(),
        ),
        Expr::BinaryExpr { left, op, right } => Expr::BinaryExpr {
            left: Box::new(rename_expr_root_name(left, name)),
            op: *op,
            right: Box::new(rename_expr_root_name(right, name)),
        },
    }
}

} // verus!
