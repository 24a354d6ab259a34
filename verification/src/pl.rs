//! Pipeline-language interface types handed to the resolver by the parser.

use vstd::prelude::*;
use crate::ident::{Ident, IdentModel};
use crate::frame::Frame;

verus! {

/// The computed type annotation of an expression; a table type carries the
/// frame computed for the relation it denotes.
#[derive(Clone, Debug, PartialEq)]
pub enum Ty {
    Table(Frame),
    Scalar,
}

/// The kind of an expression; resolution only distinguishes bare
/// identifiers, every other expression is carried as an opaque literal.
#[derive(Clone, Debug, PartialEq)]
pub enum ExprKind {
    Ident(Ident),
    Literal(String),
}

/// A pipeline AST expression, reduced to the parts that resolution reads.
#[derive(Clone, Debug, PartialEq)]
pub struct Expr {
    /// Unique id of the AST node that produced this expression.
    pub id: Option<usize>,
    /// Output name given with an explicit alias.
    pub alias: Option<String>,
    pub kind: ExprKind,
    /// Computed type of this expression.
    pub ty: Option<Ty>,
}

/// A function definition, as far as declaration is concerned.
#[derive(Clone, Debug, PartialEq)]
pub struct FuncDef {
    pub name: String,
    pub body: Option<Expr>,
}

/// A table definition: the table's name and its defining expression.
#[derive(Clone, Debug, PartialEq)]
pub struct TableDef {
    pub name: String,
    pub value: Expr,
}

impl ExprKind {
    /// The identifier, if this expression is a bare identifier.
    pub fn as_ident(&self) -> (r: Option<&Ident>)
        ensures
            match r {
                Some(i) => self matches ExprKind::Ident(j) && *i == j,
                None => !(self matches ExprKind::Ident(_)),
            },
    {
        match self {
            ExprKind::Ident(i) => Some(i),
            _ => None,
        }
    }
}

/// The identifier's model, if the expression is a bare identifier.
pub open spec fn expr_ident_model(e: Expr) -> Option<IdentModel> {
    match e.kind {
        ExprKind::Ident(i) => Some(i@),
        _ => None,
    }
}

/// Whether the expression is the literal wildcard identifier `*`.
pub open spec fn is_star_expr(e: Expr) -> bool {
    match e.kind {
        ExprKind::Ident(i) => i@.name == "*"@,
        _ => false,
    }
}

/// The input name a wildcard assignment refers to: the last path segment of
/// the wildcard identifier.
pub open spec fn star_input_model(e: Expr) -> Seq<char> {
    match e.kind {
        ExprKind::Ident(i) => i@.path.last(),
        _ => arbitrary(),
    }
}

/// The output name an assignment determines: the alias if one is given,
/// else the identifier's own name if the expression is a bare identifier.
pub open spec fn assign_name(e: Expr) -> Option<Seq<char>> {
    match e.alias {
        Some(a) => Some(a@),
        None => match e.kind {
            ExprKind::Ident(i) => Some(i@.name),
            _ => None,
        },
    }
}

/// The AST node id of an expression that has one.
pub open spec fn expr_id_model(e: Expr) -> nat {
    match e.id {
        Some(i) => i as nat,
        None => arbitrary(),
    }
}

/// The wildcard name, as the parser writes it.
pub fn star_string() -> (r: String)
    ensures
        r@ == "*"@,
{
    "*".to_owned()
}

} // verus!
