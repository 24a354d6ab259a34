//! The relational-query intermediate representation: the strictly typed,
//! immutable output data model that resolution is lowered into.

use vstd::prelude::*;
use vstd::string::StringExecFns;
use crate::frame::ColumnSort;
use crate::render::{join_model, join_with};

verus! {

/// Id of a table, unique within one query.
#[derive(Clone, Copy, PartialEq, Eq, Structural, Debug)]
pub struct TId(pub usize);

/// Id of a column, unique within one query.
#[derive(Clone, Copy, PartialEq, Eq, Structural, Debug)]
pub struct CId(pub usize);

/// Header of a query: the language version it was written for.
#[derive(Clone, Debug, PartialEq)]
pub struct QueryDef {
    pub version: Option<String>,
}

/// A column of a relation once the relation's type is fixed.
#[derive(Clone, Debug, PartialEq)]
pub enum RelationColumn {
    /// A single column that may carry a name; an unnamed column cannot be
    /// referenced.
    Single(Option<String>),
    /// Stands for further unmentioned columns: a marker of incompleteness,
    /// not a literal "all columns".
    Wildcard,
}

/// Reference to an external (database-native) table.
#[derive(Clone, Debug, PartialEq)]
pub struct TableExternRef {
    pub name: String,
}

/// An inline relation given by literal rows.
#[derive(Clone, Debug, PartialEq)]
pub struct RelationLiteral {
    /// Column names.
    pub columns: Vec<String>,
    /// Row-oriented data: one vector of string-encoded cells per row.
    pub rows: Vec<Vec<String>>,
}

/// One item of an interpolated string: literal text or a column splice.
#[derive(Clone, Debug, PartialEq)]
pub enum InterpolateItem {
    Text(String),
    Column(CId),
}

/// Reference to a table instantiated at one point of a pipeline. Fresh
/// column ids are needed because the same table may be instantiated more
/// than once in one query.
#[derive(Clone, Debug, PartialEq)]
pub struct TableRef {
    /// The referenced table.
    pub source: TId,
    /// Column definitions of this instance.
    pub columns: Vec<(RelationColumn, CId)>,
    /// Given alias of this instance.
    pub name: Option<String>,
}

/// One relational transform of a lowered pipeline.
#[derive(Clone, Debug, PartialEq)]
pub enum Transform {
    From(TableRef),
    Select(Vec<CId>),
    Sort(Vec<ColumnSort<CId>>),
    Take(usize),
}

/// What a relation is computed from.
#[derive(Clone, Debug, PartialEq)]
pub enum RelationKind {
    ExternRef(TableExternRef),
    Pipeline(Vec<Transform>),
    Literal(RelationLiteral),
    SString(Vec<InterpolateItem>),
}

/// A relation: its kind, and the column interface other tables can refer
/// to. A wildcard column still present here means further unenumerated
/// columns may exist and must be preserved as such.
#[derive(Clone, Debug, PartialEq)]
pub struct Relation {
    pub kind: RelationKind,
    pub columns: Vec<RelationColumn>,
}

/// A table of the query: a common-table-expression with an id, an
/// optional name, and its contents.
#[derive(Clone, Debug, PartialEq)]
pub struct TableDecl {
    /// Unique id of this table within the query.
    pub id: TId,
    /// Given name of this table.
    pub name: Option<String>,
    /// The table's contents.
    pub relation: Relation,
}

/// A resolved query: the header, the declared tables, and the relation
/// produced by the main pipeline.
#[derive(Clone, Debug, PartialEq)]
pub struct Query {
    pub def: QueryDef,
    pub tables: Vec<TableDecl>,
    pub relation: Relation,
}

/// The text of one relation column: its name, `*` for the wildcard
/// marker, and `<unnamed>` for an anonymous column.
pub open spec fn rel_col_text(c: RelationColumn) -> Seq<char> {
    match c {
        RelationColumn::Wildcard => "*"@,
        RelationColumn::Single(Some(s)) => s@,
        RelationColumn::Single(None) => "<unnamed>"@,
    }
}

/// The text of a column list: the columns joined inside brackets.
pub open spec fn rel_cols_text(cols: Seq<RelationColumn>) -> Seq<char> {
    "["@ + join_model(Seq::new(cols.len(), |i: int| rel_col_text(cols[i])), ", "@) + "]"@
}

/// A column list bundled for rendering.
pub struct RelationColumns(pub Vec<RelationColumn>);

impl RelationColumns {
    /// Render as `[a, b, *]`.
    pub fn display(&self) -> (r: String)
        ensures
            r@ == rel_cols_text(self.0@),
    {
        display_relation_columns(&self.0)
    }
}

/// Render a column list as `[a, b, *]`.
pub fn display_relation_columns(cols: &Vec<RelationColumn>) -> (r: String)
    ensures
        r@ == rel_cols_text(cols@),
{
    let mut parts: Vec<String> = Vec::new();
    let mut k: usize = 0;
    while k < cols.len()
        invariant
            k <= cols@.len(),
            parts@.len() == k,
            forall|i: int| 0 <= i < k ==> #[trigger] parts@[i]@ == rel_col_text(cols@[i]),
        decreases cols@.len() - k,
    {
        let part: String = match &cols[k] {
            RelationColumn::Wildcard => "*".to_owned(),
            RelationColumn::Single(Some(s)) => s.clone(),
            RelationColumn::Single(None) => "<unnamed>".to_owned(),
        };
        parts.push(part);
        k += 1;
    }
    proof {
        let texts = Seq::new(cols@.len(), |i: int| rel_col_text(cols@[i]));
        assert forall|i: int| 0 <= i < parts@.len() implies #[trigger] parts.deep_view()[i]
            == texts[i] by {
            assert(parts.deep_view()[i] == parts@[i]@);
        }
        assert(parts.deep_view() =~= texts);
    }
    let joined = join_with(&parts, ", ");
    let mut s = "[".to_owned();
    s.append(joined.as_str());
    s.append("]");
    s
}

/// One step of column evolution: the column list is unchanged, or one
/// single column carrying the inferred name was appended to a list that
/// lacked it.
pub open spec fn cols_step(c0: Seq<RelationColumn>, c1: Seq<RelationColumn>, n: Seq<char>) -> bool {
    c1 == c0 || (!rc_has_named(c0, n) && c1.len() == c0.len() + 1 && c1 == c0.push(c1.last())
        && rc_named(c1.last(), n))
}

/// Column evolution composes: two steps make a step.
pub proof fn lemma_cols_step_trans(
    a: Seq<RelationColumn>,
    b: Seq<RelationColumn>,
    c: Seq<RelationColumn>,
    n: Seq<char>,
)
    requires
        cols_step(a, b, n),
        cols_step(b, c, n),
    ensures
        cols_step(a, c, n),
{
    if b != a && c != b {
        assert(rc_named(b.last(), n));
        assert(b[b.len() - 1] == b.last());
        assert(rc_has_named(b, n));
        assert(false);
    }
}

/// Whether the column is a single column carrying exactly this name.
pub open spec fn rc_named(c: RelationColumn, n: Seq<char>) -> bool {
    match c {
        RelationColumn::Single(Some(s)) => s@ == n,
        _ => false,
    }
}

/// Whether the column is the wildcard marker.
pub open spec fn rc_wildcard(c: RelationColumn) -> bool {
    c is Wildcard
}

/// How many columns of the list are single columns carrying this name.
pub open spec fn rc_named_count(cols: Seq<RelationColumn>, n: Seq<char>) -> nat
    decreases cols.len(),
{
    if cols.len() == 0 {
        0nat
    } else {
        rc_named_count(cols.drop_last(), n) + (if rc_named(cols.last(), n) {
            1nat
        } else {
            0nat
        })
    }
}

/// Whether some column of the list is a single column with this name.
pub open spec fn rc_has_named(cols: Seq<RelationColumn>, n: Seq<char>) -> bool {
    exists|i: int| 0 <= i < cols.len() && rc_named(#[trigger] cols[i], n)
}

/// Whether some column of the list is the wildcard marker.
pub open spec fn rc_has_wildcard(cols: Seq<RelationColumn>) -> bool {
    exists|i: int| 0 <= i < cols.len() && rc_wildcard(#[trigger] cols[i])
}

} // verus!
