//! The resolver: the namespace tree of one compilation unit, identifier
//! resolution with deferred wildcard expansion, and recursive inference of
//! wildcard-hidden columns across dependent tables.

use vstd::prelude::*;
use crate::error::{NameError, Span};
use crate::frame::{ColModel, Frame, FrameColumn, FrameModel, input_idx};
use crate::ident::{Ident, IdentModel};
use crate::module::{
    blocked, decl_kept, get_spec, lemma_decl_kept_trans, lemma_plain_count, lookup_count,
    plain_path, table_at, table_cols, table_expr, Decl, DeclKind, Module, TableDecl,
};
use crate::pl::{Expr, FuncDef, TableDef, Ty};
use crate::rq::{
    cols_step, lemma_cols_step_trans, rc_has_named, rc_has_wildcard, rc_named, rc_named_count,
    RelationColumn,
};

verus! {

/// Resolution state of one compilation unit.
pub struct Context {
    /// All accessible names, arranged as one namespace tree.
    pub root_mod: Module,
    /// Source span of each AST node, kept only for diagnostics.
    pub span_map: Vec<(usize, Span)>,
    /// Columns inferred to flow through a wildcard-producing input, keyed
    /// by the id of the AST node that declared the input; used where the
    /// containing scope is not a declared table and cannot host the
    /// result in the namespace tree.
    pub inferred_columns: Vec<(usize, Vec<RelationColumn>)>,
}

/// The standard-library namespace.
fn ns_std() -> (r: String)
    ensures
        r@ == "std"@,
{
    "std".to_owned()
}

/// The default-database namespace.
fn ns_default_db() -> (r: String)
    ensures
        r@ == "default_db"@,
{
    "default_db".to_owned()
}

/// The reserved slot binding a namespace to the table it is an instance
/// of.
fn ns_self() -> (r: String)
    ensures
        r@ == "_self"@,
{
    "_self".to_owned()
}

/// How a frame column determines a relation column: a wildcard stays a
/// wildcard, a single column keeps its name.
pub open spec fn maps_frame_col(c: ColModel, r: RelationColumn) -> bool {
    match c {
        ColModel::Wildcard { .. } => r is Wildcard,
        ColModel::Single { name, .. } => match (name, r) {
            (Some(im), RelationColumn::Single(Some(s))) => s@ == im.name,
            (None, RelationColumn::Single(None)) => true,
            _ => false,
        },
    }
}

/// The frame a table-typed expression carries.
pub open spec fn def_frame(e: Expr) -> FrameModel {
    match e.ty {
        Some(Ty::Table(f)) => f@,
        _ => arbitrary(),
    }
}

/// The frame computed for the defining expression of the table the ident
/// reaches, if it has one.
pub open spec fn frame_of_table(m: Module, tm: IdentModel) -> Option<FrameModel> {
    match table_expr(m, tm.path, tm.name) {
        Some(b) => match (*b).ty {
            Some(Ty::Table(f)) => Some(f@),
            _ => None,
        },
        None => None,
    }
}

/// The input names of the wildcard columns of a frame, in column order.
pub open spec fn wc_names(cols: Seq<ColModel>) -> Seq<Seq<char>>
    decreases cols.len(),
{
    if cols.len() == 0 {
        Seq::empty()
    } else {
        wc_names(cols.drop_last()) + (match cols.last() {
            ColModel::Wildcard { input_name } => seq![input_name],
            _ => Seq::<Seq<char>>::empty(),
        })
    }
}

/// A column appended to a list that lacked its name appears in the result
/// exactly once.
pub proof fn lemma_pushed_once(s: Seq<RelationColumn>, c: RelationColumn, n: Seq<char>)
    requires
        !rc_has_named(s, n),
        rc_named(c, n),
    ensures
        rc_named_count(s.push(c), n) == 1,
{
    assert(s.push(c).drop_last() =~= s);
    lemma_rc_count_zero(s, n);
}

/// A column list has no column of a name exactly when it counts zero of
/// them.
pub proof fn lemma_rc_count_zero(s: Seq<RelationColumn>, n: Seq<char>)
    ensures
        (rc_named_count(s, n) == 0) <==> !rc_has_named(s, n),
    decreases s.len(),
{
    if s.len() > 0 {
        lemma_rc_count_zero(s.drop_last(), n);
        if rc_has_named(s, n) {
            let i = choose|i: int| 0 <= i < s.len() && rc_named(s[i], n);
            if i < s.len() - 1 {
                assert(s.drop_last()[i] == s[i]);
                assert(rc_has_named(s.drop_last(), n));
            }
        }
        if rc_has_named(s.drop_last(), n) {
            let i = choose|i: int| 0 <= i < s.drop_last().len() && rc_named(s.drop_last()[i], n);
            assert(s[i] == s.drop_last()[i]);
            assert(rc_has_named(s, n));
        }
    }
}

/// A named single column appended to a list neither adds nor removes a
/// wildcard marker.
pub proof fn lemma_step_keeps_wildcard(c0: Seq<RelationColumn>, c1: Seq<RelationColumn>, n: Seq<char>)
    requires
        cols_step(c0, c1, n),
    ensures
        rc_has_wildcard(c0) == rc_has_wildcard(c1),
{
    if c1 != c0 {
        if rc_has_wildcard(c0) {
            let i = choose|i: int| 0 <= i < c0.len() && crate::rq::rc_wildcard(c0[i]);
            assert(c1[i] == c0[i]);
        }
        if rc_has_wildcard(c1) {
            let i = choose|i: int| 0 <= i < c1.len() && crate::rq::rc_wildcard(c1[i]);
            if i < c0.len() {
                assert(c0[i] == c1[i]);
                assert(rc_has_wildcard(c0));
            } else {
                assert(c1[i] == c1.last());
                assert(rc_named(c1.last(), n));
            }
        }
    }
}

/// Whether the inference walk started at this table succeeds, judged
/// against the tree as it stood when the walk began. `granted` holds the
/// tables the walk has already granted the column (so a cyclic graph
/// stops the first time it returns to one of them), and `fuel` is the
/// same depth guard the executable walk carries.
pub open spec fn infer_ok_from(
    m: Module,
    tm: IdentModel,
    col: Seq<char>,
    granted: Set<IdentModel>,
    fuel: nat,
) -> bool
    decreases fuel,
{
    if fuel == 0 {
        false
    } else if !table_at(m, tm.path, tm.name) {
        false
    } else if !rc_has_wildcard(table_cols(m, tm.path, tm.name)) {
        false
    } else if rc_has_named(table_cols(m, tm.path, tm.name), col) || granted.contains(tm) {
        true
    } else {
        match frame_of_table(m, tm) {
            None => true,
            Some(f) => {
                let ws = wc_names(f.columns);
                if ws.len() == 1 {
                    let ii = input_idx(f.inputs, ws[0]);
                    if ii >= 0 {
                        match f.inputs[ii].table {
                            None => true,
                            Some(u) => infer_ok_from(
                                m,
                                u,
                                col,
                                granted.insert(tm),
                                (fuel - 1) as nat,
                            ),
                        }
                    } else {
                        false
                    }
                } else {
                    false
                }
            },
        }
    }
}

/// How the tree of an ongoing inference walk relates to the tree the walk
/// began on: table presence and defining expressions are untouched, and a
/// table holds the walked column exactly when it held it at the start or
/// the walk has granted it since.
pub open spec fn walk_state(
    base: Module,
    granted: Set<IdentModel>,
    cur: Module,
    col: Seq<char>,
) -> bool {
    &&& forall|p: Seq<Seq<char>>, n2: Seq<char>| #[trigger] table_at(cur, p, n2) == table_at(
        base,
        p,
        n2,
    )
    &&& forall|p: Seq<Seq<char>>, n2: Seq<char>| #[trigger] table_expr(cur, p, n2) == table_expr(
        base,
        p,
        n2,
    )
    &&& forall|p: Seq<Seq<char>>, n2: Seq<char>| cols_step(
        table_cols(base, p, n2),
        #[trigger] table_cols(cur, p, n2),
        col,
    )
    &&& forall|p: Seq<Seq<char>>, n2: Seq<char>| rc_has_named(
        #[trigger] table_cols(cur, p, n2),
        col,
    ) <==> (rc_has_named(table_cols(base, p, n2), col) || (granted.contains(
        IdentModel { path: p, name: n2 },
    ) && table_at(base, p, n2)))
}

/// First index of the record kept for this AST node id, or -1.
pub open spec fn ic_idx(s: Seq<(usize, Vec<RelationColumn>)>, id: usize) -> int
    decreases s.len(),
{
    if s.len() == 0 {
        -1
    } else if s[0].0 == id {
        0
    } else {
        let r = ic_idx(s.drop_first(), id);
        if r < 0 {
            -1
        } else {
            r + 1
        }
    }
}

pub proof fn lemma_ic_idx(s: Seq<(usize, Vec<RelationColumn>)>, id: usize)
    ensures
        -1 <= ic_idx(s, id) < s.len(),
        ic_idx(s, id) >= 0 ==> s[ic_idx(s, id)].0 == id,
        ic_idx(s, id) == -1 ==> forall|i: int| 0 <= i < s.len() ==> (#[trigger] s[i]).0 != id,
        forall|i: int| 0 <= i < ic_idx(s, id) ==> (#[trigger] s[i]).0 != id,
    decreases s.len(),
{
    if s.len() > 0 && s[0].0 != id {
        lemma_ic_idx(s.drop_first(), id);
        assert forall|i: int| 0 <= i < s.len() && ic_idx(s, id) == -1 implies (#[trigger] s[i]).0
            != id by {
            if i > 0 {
                assert(s.drop_first()[i - 1] == s[i]);
            }
        }
        assert forall|i: int| 0 <= i < ic_idx(s, id) implies (#[trigger] s[i]).0 != id by {
            if i > 0 {
                assert(s.drop_first()[i - 1] == s[i]);
            }
        }
    }
}

/// If every record before `k` has another id and record `k` has this one,
/// `k` is the index that `ic_idx` finds.
pub proof fn lemma_ic_idx_first(s: Seq<(usize, Vec<RelationColumn>)>, id: usize, k: int)
    requires
        0 <= k < s.len(),
        s[k].0 == id,
        forall|i: int| 0 <= i < k ==> (#[trigger] s[i]).0 != id,
    ensures
        ic_idx(s, id) == k,
    decreases s.len(),
{
    if k > 0 {
        assert forall|i: int| 0 <= i < k - 1 implies (#[trigger] s.drop_first()[i]).0 != id by {
            assert(s.drop_first()[i] == s[i + 1]);
        }
        assert(s.drop_first()[k - 1] == s[k]);
        lemma_ic_idx_first(s.drop_first(), id, k - 1);
    }
}

/// How recording one inferred column changes the record list: a fresh id
/// gains a one-column record at the end; the first record of a known id
/// gains the column appended at its end exactly when it lacked it; every
/// other record keeps its value and its place.
pub open spec fn recorded(
    s0: Seq<(usize, Vec<RelationColumn>)>,
    s1: Seq<(usize, Vec<RelationColumn>)>,
    id: usize,
    name: String,
) -> bool {
    let j = ic_idx(s0, id);
    if j == -1 {
        &&& s1.len() == s0.len() + 1
        &&& (forall|t: int| 0 <= t < s0.len() ==> #[trigger] s1[t] == s0[t])
        &&& s1.last().0 == id
        &&& s1.last().1@ == seq![RelationColumn::Single(Some(name))]
    } else {
        &&& s1.len() == s0.len()
        &&& (forall|t: int| 0 <= t < s0.len() && t != j ==> #[trigger] s1[t] == s0[t])
        &&& s1[j].0 == id
        &&& (rc_has_named(s0[j].1@, name@) ==> s1[j] == s0[j])
        &&& (!rc_has_named(s0[j].1@, name@) ==> s1[j].1@ == s0[j].1@.push(
            RelationColumn::Single(Some(name)),
        ))
    }
}

/// The table a namespace is declared an instance of, through its
/// reserved self slot.
pub open spec fn instance_table(m: Module, pm: Seq<Seq<char>>) -> Option<IdentModel> {
    match get_spec(m, pm, "_self"@) {
        Some(d) => match d.kind {
            DeclKind::InstanceOf(t) => Some(t@),
            _ => None,
        },
        None => None,
    }
}

/// A declaration kind that neither holds a table nor opens a namespace:
/// binding it under a fresh name changes no table lookup anywhere.
pub open spec fn inert_kind(k: DeclKind) -> bool {
    !(k is TableDecl) && !(k is Module)
}

/// Whether one inference step hands the column on to an upstream table:
/// the defining frame exists and its single wildcard input names one.
pub open spec fn hands_upstream(m: Module, tm: IdentModel) -> bool {
    match frame_of_table(m, tm) {
        Some(f) => {
            let ws = wc_names(f.columns);
            &&& ws.len() == 1
            &&& input_idx(f.inputs, ws[0]) >= 0
            &&& f.inputs[input_idx(f.inputs, ws[0])].table is Some
        },
        None => false,
    }
}

/// The errors an inference walk can surface; never a name-lookup error.
pub open spec fn infer_error_kind(e: NameError) -> bool {
    ||| e is NoWildcardOnTable
    ||| e is InferenceImpossible
    ||| e is InferenceAmbiguous
    ||| e is Internal
}

/// What the walk from a table towards its upstream feeder decides, read
/// off before the table is modified.
enum InferStep {
    /// The table has no defining expression with a computed relation
    /// type: nothing upstream to update.
    NoFrame,
    /// The defining frame has no wildcard input.
    NoInputs,
    /// The defining frame has several wildcard inputs; their names.
    ManyInputs(Vec<String>),
    /// The single wildcard input is missing from the frame's input list.
    MissingInput,
    /// The single wildcard input refers to no table.
    Stop,
    /// The single wildcard input draws from this upstream table.
    Upstream(Ident),
}

impl Default for Context {
    /// The default context has no declarations, no spans and no inferred
    /// columns.
    fn default() -> (r: Context)
        ensures
            r.root_mod.names@.len() == 0,
            r.span_map@.len() == 0,
            r.inferred_columns@.len() == 0,
    {
        Context::new()
    }
}

impl Context {
    /// A context with no declarations.
    pub fn new() -> (r: Context)
        ensures
            r.root_mod.names@.len() == 0,
            r.span_map@.len() == 0,
            r.inferred_columns@.len() == 0,
    {
        Context { root_mod: Module::new(), span_map: Vec::new(), inferred_columns: Vec::new() }
    }

    /// Declare a function under the standard-library namespace, keyed by
    /// its name; a previous declaration of the same name is overwritten.
    /// Fails, leaving the context untouched, exactly when the namespace
    /// slot is blocked by a non-namespace declaration.
    pub fn declare_func(&mut self, func_def: FuncDef, id: Option<usize>) -> (r: Result<
        (),
        NameError,
    >)
        ensures
            r is Ok <==> !blocked(old(self).root_mod, seq!["std"@]),
            r is Err ==> *final(self) == *old(self),
            r is Ok ==> get_spec(final(self).root_mod, seq!["std"@], func_def.name@) == Some(
                Decl { declared_at: id, kind: DeclKind::FuncDef(func_def) },
            ),
            forall|p: Seq<Seq<char>>, n2: Seq<char>|
                !crate::module::chains_overlap(
                    #[trigger] p.push(n2),
                    seq!["std"@].push(func_def.name@),
                ) ==> get_spec(final(self).root_mod, p, n2) == get_spec(
                    old(self).root_mod,
                    p,
                    n2,
                ),
            final(self).span_map == old(self).span_map,
            final(self).inferred_columns == old(self).inferred_columns,
    {
        let name = func_def.name.clone();
        let mut path: Vec<String> = Vec::new();
        path.push(ns_std());
        let ident = Ident { path, name };
        proof {
            assert(ident@.path =~= seq!["std"@]);
        }
        let decl = Decl { declared_at: id, kind: DeclKind::FuncDef(func_def) };
        match self.root_mod.insert(&ident, decl) {
            Ok(()) => Ok(()),
            Err(()) => Err(NameError::PathConflict { ident }),
        }
    }

    /// Declare a table under the default-database namespace, keyed by its
    /// name. Its declared column shape is derived from the frame computed
    /// for its defining expression: a frame wildcard becomes a wildcard
    /// marker, a single frame column keeps its name. The expression
    /// itself is stored as the table's definition.
    pub fn declare_table(&mut self, table_def: TableDef, id: Option<usize>) -> (r: Result<
        (),
        NameError,
    >)
        requires
            table_def.value.ty matches Some(t) && t is Table,
        ensures
            r is Ok <==> !blocked(old(self).root_mod, seq!["default_db"@]),
            r is Err ==> *final(self) == *old(self),
            final(self).span_map == old(self).span_map,
            final(self).inferred_columns == old(self).inferred_columns,
            forall|p: Seq<Seq<char>>, n2: Seq<char>|
                !crate::module::chains_overlap(
                    #[trigger] p.push(n2),
                    seq!["default_db"@].push(table_def.name@),
                ) ==> get_spec(final(self).root_mod, p, n2) == get_spec(
                    old(self).root_mod,
                    p,
                    n2,
                ),
            r is Ok ==> ({
                let d = get_spec(final(self).root_mod, seq!["default_db"@], table_def.name@);
                let fm = def_frame(table_def.value);
                &&& d matches Some(dd)
                &&& dd.declared_at == id
                &&& dd.kind matches DeclKind::TableDecl(td)
                &&& td.expr matches Some(b) && *b == table_def.value
                &&& td.columns@.len() == fm.columns.len()
                &&& forall|k: int| 0 <= k < fm.columns.len()
                    ==> maps_frame_col(fm.columns[k], #[trigger] td.columns@[k])
            }),
    {
        let TableDef { name, value } = table_def;
        let ghost fm: FrameModel = def_frame(value);
        let mut columns: Vec<RelationColumn> = Vec::new();
        match &value.ty {
            Some(Ty::Table(f)) => {
                let mut k: usize = 0;
                while k < f.columns.len()
                    invariant
                        k <= f.columns@.len(),
                        f@ == fm,
                        columns@.len() == k,
                        forall|t: int| 0 <= t < k ==> maps_frame_col(
                            fm.columns[t],
                            #[trigger] columns@[t],
                        ),
                    decreases f.columns@.len() - k,
                {
                    let rc = match &f.columns[k] {
                        FrameColumn::Wildcard { .. } => RelationColumn::Wildcard,
                        FrameColumn::Single { name: n, .. } => RelationColumn::Single(
                            match n {
                                Some(id2) => Some(id2.name.clone()),
                                None => None,
                            },
                        ),
                    };
                    columns.push(rc);
                    k += 1;
                }
            },
            _ => {
                proof {
                    assert(false);
                }
            },
        }
        let mut path: Vec<String> = Vec::new();
        path.push(ns_default_db());
        let ident = Ident { path, name };
        proof {
            assert(ident@.path =~= seq!["default_db"@]);
        }
        let decl = Decl {
            declared_at: id,
            kind: DeclKind::TableDecl(TableDecl { columns, expr: Some(Box::new(value)) }),
        };
        match self.root_mod.insert(&ident, decl) {
            Ok(()) => Ok(()),
            Err(()) => Err(NameError::PathConflict { ident }),
        }
    }

    /// Resolve an identifier to the fully qualified name of exactly one
    /// declaration.
    ///
    /// A direct lookup with exactly one match succeeds at once; more than
    /// one match is an ambiguity naming all candidates. With no direct
    /// match, the same path is tried with the name replaced by the
    /// wildcard `*`: its single match is materialized into a concrete
    /// declaration bound to the requested name (so a repeated resolution
    /// of the same identifier finds exactly one direct match and returns
    /// the same ident without further change), table-instance scopes
    /// trigger column inference on their table, and the inferred column
    /// is recorded for the wildcard's source node.
    pub fn resolve_ident(&mut self, ident: &Ident) -> (r: Result<Ident, NameError>)
        ensures
            final(self).span_map == old(self).span_map,
            r matches Ok(res) ==> res@ == ident@ && lookup_count(
                final(self).root_mod,
                ident@.path,
                ident@.name,
            ) == 1,
            r is Err ==> final(self).inferred_columns == old(self).inferred_columns,
            ({
                let c = lookup_count(old(self).root_mod, ident@.path, ident@.name);
                let w = lookup_count(old(self).root_mod, ident@.path, "*"@);
                &&& c == 1 ==> r is Ok && *final(self) == *old(self)
                &&& c > 1 ==> *final(self) == *old(self) && (r matches Err(
                    NameError::AmbiguousName { candidates },
                ) && candidates@.len() == c && forall|t: int|
                    0 <= t < candidates@.len() ==> (#[trigger] candidates@[t])@ == ident@)
                &&& c == 0 && ident@.name == "*"@ ==> *final(self) == *old(self) && (r matches Err(
                    NameError::UnknownName { ident: u },
                ) && u@ == ident@)
                &&& c == 0 && ident@.name != "*"@ && w == 0 ==> *final(self) == *old(self) && (
                r matches Err(NameError::UnknownName { ident: u }) && u@ == ident@)
                &&& c == 0 && ident@.name != "*"@ && w > 1 ==> *final(self) == *old(self) && (
                r matches Err(NameError::AmbiguousName { candidates }) && candidates@.len() == w
                    && forall|t: int|
                    0 <= t < candidates@.len() ==> (#[trigger] candidates@[t])@ == IdentModel {
                        path: ident@.path,
                        name: "*"@,
                    })
            }),
            ({
                let c = lookup_count(old(self).root_mod, ident@.path, ident@.name);
                let w = lookup_count(old(self).root_mod, ident@.path, "*"@);
                c == 0 && ident@.name != "*"@ && w == 1 ==> ({
                    &&& !(r matches Err(NameError::UnknownName { .. }))
                    &&& match get_spec(old(self).root_mod, ident@.path, "*"@) {
                        Some(wd) => match wd.kind {
                            DeclKind::Wildcard(b) => ({
                                &&& (blocked(old(self).root_mod, ident@.path) ==> (r matches Err(
                                    NameError::Internal { .. },
                                )) && *final(self) == *old(self))
                                &&& (!blocked(old(self).root_mod, ident@.path) ==> ({
                                    &&& (match get_spec(
                                        final(self).root_mod,
                                        ident@.path,
                                        ident@.name,
                                    ) {
                                        Some(d) => d.declared_at is None && (match *b {
                                            DeclKind::Column(cid) => d.kind == DeclKind::Column(
                                                cid,
                                            ),
                                            _ => true,
                                        }),
                                        None => false,
                                    })
                                    &&& lookup_count(
                                        final(self).root_mod,
                                        ident@.path,
                                        ident@.name,
                                    ) == 1
                                    &&& (r matches Err(e) ==> infer_error_kind(e))
                                    &&& (inert_kind(*b) && ident@.name != "_self"@ ==> ({
                                        let it = instance_table(
                                            old(self).root_mod,
                                            ident@.path,
                                        );
                                        &&& (it is None ==> r is Ok)
                                        &&& match it {
                                            Some(tm) => r is Ok <==> infer_ok_from(
                                                old(self).root_mod,
                                                tm,
                                                ident@.name,
                                                Set::empty(),
                                                u64::MAX as nat,
                                            ),
                                            None => true,
                                        }
                                    }))
                                    &&& (r is Ok ==> match wd.declared_at {
                                        Some(nid) => recorded(
                                            old(self).inferred_columns@,
                                            final(self).inferred_columns@,
                                            nid,
                                            ident.name,
                                        ),
                                        None => final(self).inferred_columns == old(
                                            self,
                                        ).inferred_columns,
                                    })
                                }))
                            }),
                            _ => (r matches Err(NameError::Internal { .. })) && *final(self)
                                == *old(self),
                        },
                        None => (r matches Err(NameError::Internal { .. })) && *final(self)
                            == *old(self),
                    }
                })
            }),
    {
        let decls = self.root_mod.lookup(ident);
        if decls.len() == 1 {
            let res = decls[0].clone();
            return Ok(res);
        }
        if decls.len() > 1 {
            return Err(NameError::AmbiguousName { candidates: decls });
        }

        // No direct match: this name may come from a namespace whose
        // columns are not all known. Try the wildcard entry of the same
        // path.
        let star = crate::pl::star_string();
        if ident.name == star {
            return Err(NameError::UnknownName { ident: ident.clone() });
        }
        let mut wi = ident.clone();
        wi.name = star;
        let wdecls = self.root_mod.lookup(&wi);
        if wdecls.len() == 0 {
            return Err(NameError::UnknownName { ident: ident.clone() });
        }
        if wdecls.len() > 1 {
            return Err(NameError::AmbiguousName { candidates: wdecls });
        }

        // Exactly one wildcard entry: materialize its default under the
        // requested name.
        proof {
            assert(wi@ == IdentModel { path: ident@.path, name: "*"@ });
        }
        let ghost mut gorig: DeclKind = DeclKind::NoResolve;
        let wildcard_default: DeclKind;
        let input_id: Option<usize>;
        match self.root_mod.get(&wi) {
            Some(w) => match &w.kind {
                DeclKind::Wildcard(b) => {
                    proof {
                        gorig = **b;
                    }
                    wildcard_default = crate::module::clone_decl_kind(&**b);
                    input_id = w.declared_at;
                },
                _ => {
                    return Err(NameError::Internal { ident: wi });
                },
            },
            None => {
                return Err(NameError::Internal { ident: wi });
            },
        }
        let ghost gdk: DeclKind = wildcard_default;
        let decl = Decl { declared_at: None, kind: wildcard_default };
        match self.root_mod.insert(ident, decl) {
            Ok(()) => {},
            Err(()) => {
                return Err(NameError::Internal { ident: ident.clone() });
            },
        }
        let ghost m1: Module = self.root_mod;
        proof {
            lemma_plain_count(self.root_mod, ident@.path, ident@.name);
            assert(inert_kind(gdk) == inert_kind(gorig));
            if inert_kind(gdk) {
                crate::module::lemma_inert_insert_preserves_tables(
                    old(self).root_mod,
                    m1,
                    ident@.path,
                    ident@.name,
                );
            }
            if ident@.name != "_self"@ {
                let q = ident@.path.push("_self"@);
                let full = ident@.path.push(ident@.name);
                assert(!crate::module::chains_overlap(q, full)) by {
                    if q.is_prefix_of(full) {
                        assert(full.subrange(0, q.len() as int) =~= full);
                        assert(q =~= full);
                        assert(q.last() == full.last());
                    }
                    if full.is_prefix_of(q) {
                        assert(q.subrange(0, full.len() as int) =~= q);
                        assert(q =~= full);
                        assert(q.last() == full.last());
                    }
                }
                assert(get_spec(m1, ident@.path, "_self"@) == get_spec(
                    old(self).root_mod,
                    ident@.path,
                    "_self"@,
                ));
            }
        }

        // A namespace that is an instance of a table hands the new column
        // on to that table's declared shape.
        let mut si = ident.clone();
        si.name = ns_self();
        let table_to_infer: Option<Ident> = match self.root_mod.get(&si) {
            Some(d) => match &d.kind {
                DeclKind::InstanceOf(t) => Some(t.clone()),
                _ => None,
            },
            None => None,
        };
        if let Some(tbl) = table_to_infer {
            let res_i = self.infer_table_column(&tbl, &ident.name);
            proof {
                if inert_kind(gorig) && ident@.name != "_self"@ {
                    crate::module::lemma_same_tables_infer_ok(
                        m1,
                        old(self).root_mod,
                        tbl@,
                        ident@.name,
                        Set::empty(),
                        u64::MAX as nat,
                    );
                }
            }
            match res_i {
                Ok(()) => {},
                Err(e) => {
                    return Err(e);
                },
            }
        }

        // For inline expressions with wildcards the inference result
        // cannot live in the namespace tree; record it on the context,
        // keyed by the wildcard's source node.
        if let Some(iid) = input_id {
            self.record_inferred(iid, &ident.name);
        }
        Ok(ident.clone())
    }

    /// Record that a column of this name flows through the
    /// wildcard-producing input declared by the AST node `id`; recording
    /// the same name again adds nothing.
    fn record_inferred(&mut self, id: usize, name: &String)
        ensures
            final(self).root_mod == old(self).root_mod,
            final(self).span_map == old(self).span_map,
            recorded(
                old(self).inferred_columns@,
                final(self).inferred_columns@,
                id,
                *name,
            ),
    {
        proof {
            lemma_ic_idx(self.inferred_columns@, id);
        }
        let mut k: usize = 0;
        while k < self.inferred_columns.len()
            invariant
                k <= self.inferred_columns@.len(),
                *self == *old(self),
                forall|i: int| 0 <= i < k ==> (#[trigger] self.inferred_columns@[i]).0 != id,
            decreases self.inferred_columns@.len() - k,
        {
            if self.inferred_columns[k].0 == id {
                proof {
                    lemma_ic_idx_first(self.inferred_columns@, id, k as int);
                }
                let ghost s0 = self.inferred_columns@;
                let (key, mut cols) = self.inferred_columns.remove(k);
                let present = cols_contain_named(&cols, name);
                if !present {
                    cols.push(RelationColumn::Single(Some(name.clone())));
                }
                self.inferred_columns.insert(k, (key, cols));
                proof {
                    assert(self.inferred_columns@ =~= s0.update(
                        k as int,
                        self.inferred_columns@[k as int],
                    ));
                    assert(self.inferred_columns@[k as int].0 == id);
                    if !present {
                        assert(self.inferred_columns@[k as int].1@ =~= s0[k as int].1@.push(
                            RelationColumn::Single(Some(*name)),
                        ));
                    } else {
                        assert(self.inferred_columns@[k as int] == s0[k as int]);
                    }
                }
                return;
            }
            k += 1;
        }
        proof {
            lemma_ic_idx(self.inferred_columns@, id);
            assert(ic_idx(self.inferred_columns@, id) == -1) by {
                if ic_idx(self.inferred_columns@, id) >= 0 {
                    assert((self.inferred_columns@[ic_idx(self.inferred_columns@, id)]).0 == id);
                }
            }
        }
        let mut cols: Vec<RelationColumn> = Vec::new();
        cols.push(RelationColumn::Single(Some(name.clone())));
        self.inferred_columns.push((id, cols));
        proof {
            let s1 = self.inferred_columns@;
            assert(s1.last().0 == id);
            assert(s1.last().1@ =~= seq![RelationColumn::Single(Some(*name))]);
        }
    }

    /// Propagate a newly observed column name into the table's declared
    /// shape, and recursively into the upstream table feeding it through
    /// the single wildcard input of its defining frame.
    ///
    /// The table must still have a wildcard marker — its shape must be
    /// known to be incomplete — and a name it already declares is
    /// accepted without any change. The recursion is bounded by an
    /// explicit depth guard: the walk moves to a table that still lacks
    /// the column, so it ends on every tree a machine can hold, and a
    /// cyclic table graph deeper than the guard fails as an internal
    /// error instead of recursing forever. Failed attempts are not
    /// memoized: a repeated failing inference redoes the same traversal
    /// and fails the same way.
    pub fn infer_table_column(&mut self, table_ident: &Ident, col_name: &String) -> (r: Result<
        (),
        NameError,
    >)
        ensures
            final(self).span_map == old(self).span_map,
            final(self).inferred_columns == old(self).inferred_columns,
            forall|p: Seq<Seq<char>>, n2: Seq<char>| #[trigger] lookup_count(
                final(self).root_mod,
                p,
                n2,
            ) == lookup_count(old(self).root_mod, p, n2),
            forall|p: Seq<Seq<char>>, n2: Seq<char>| #[trigger] table_at(final(self).root_mod, p, n2)
                == table_at(old(self).root_mod, p, n2),
            forall|p: Seq<Seq<char>>, n2: Seq<char>| cols_step(
                #[trigger] table_cols(old(self).root_mod, p, n2),
                table_cols(final(self).root_mod, p, n2),
                col_name@,
            ),
            infer_outcome(*old(self), *final(self), t_model(table_ident), col_name@, r),
            forall|p: Seq<Seq<char>>, n2: Seq<char>| decl_kept(
                #[trigger] get_spec(old(self).root_mod, p, n2),
                get_spec(final(self).root_mod, p, n2),
                col_name@,
            ),
            r matches Err(e) ==> infer_error_kind(e),
            !hands_upstream(old(self).root_mod, table_ident@) ==> forall|
                p: Seq<Seq<char>>,
                n2: Seq<char>,
            |
                !(#[trigger] p.push(n2)).is_prefix_of(table_ident@.path.push(table_ident@.name))
                    ==> get_spec(final(self).root_mod, p, n2) == get_spec(
                    old(self).root_mod,
                    p,
                    n2,
                ),
            r is Ok <==> infer_ok_from(
                old(self).root_mod,
                table_ident@,
                col_name@,
                Set::empty(),
                u64::MAX as nat,
            ),
    {
        let ghost base: Module = self.root_mod;
        proof {
            assert forall|p: Seq<Seq<char>>, n2: Seq<char>| cols_step(
                table_cols(base, p, n2),
                #[trigger] table_cols(base, p, n2),
                col_name@,
            ) by {}
            assert forall|p: Seq<Seq<char>>, n2: Seq<char>| rc_has_named(
                #[trigger] table_cols(base, p, n2),
                col_name@,
            ) <==> (rc_has_named(table_cols(base, p, n2), col_name@) || (Set::<
                IdentModel,
            >::empty().contains(IdentModel { path: p, name: n2 }) && table_at(base, p, n2))) by {
                assert(!Set::<IdentModel>::empty().contains(IdentModel { path: p, name: n2 }));
            }
            assert(walk_state(base, Set::empty(), base, col_name@));
        }
        self.infer_rec(table_ident, col_name, u64::MAX, Ghost(base), Ghost(Set::empty()))
    }

    fn infer_rec(
        &mut self,
        t: &Ident,
        col: &String,
        fuel: u64,
        Ghost(base): Ghost<Module>,
        Ghost(granted): Ghost<Set<IdentModel>>,
    ) -> (r: Result<(), NameError>)
        requires
            walk_state(base, granted, old(self).root_mod, col@),
        ensures
            final(self).span_map == old(self).span_map,
            final(self).inferred_columns == old(self).inferred_columns,
            forall|p: Seq<Seq<char>>, n2: Seq<char>| #[trigger] lookup_count(
                final(self).root_mod,
                p,
                n2,
            ) == lookup_count(old(self).root_mod, p, n2),
            forall|p: Seq<Seq<char>>, n2: Seq<char>| #[trigger] table_at(final(self).root_mod, p, n2)
                == table_at(old(self).root_mod, p, n2),
            forall|p: Seq<Seq<char>>, n2: Seq<char>| cols_step(
                #[trigger] table_cols(old(self).root_mod, p, n2),
                table_cols(final(self).root_mod, p, n2),
                col@,
            ),
            fuel == 0 ==> (r matches Err(NameError::Internal { .. })) && *final(self) == *old(
                self,
            ),
            fuel > 0 ==> infer_outcome(*old(self), *final(self), t_model(t), col@, r),
            forall|p: Seq<Seq<char>>, n2: Seq<char>| decl_kept(
                #[trigger] get_spec(old(self).root_mod, p, n2),
                get_spec(final(self).root_mod, p, n2),
                col@,
            ),
            r matches Err(e) ==> infer_error_kind(e),
            !hands_upstream(old(self).root_mod, t@) ==> forall|p: Seq<Seq<char>>, n2: Seq<char>|
                !(#[trigger] p.push(n2)).is_prefix_of(t@.path.push(t@.name)) ==> get_spec(
                    final(self).root_mod,
                    p,
                    n2,
                ) == get_spec(old(self).root_mod, p, n2),
            r is Ok <==> infer_ok_from(base, t@, col@, granted, fuel as nat),
        decreases fuel,
    {
        if fuel == 0 {
            return Err(NameError::Internal { ident: t.clone() });
        }
        let ghost m0: Module = self.root_mod;

        // Read phase: what the table declares now, and where its single
        // wildcard input draws from.
        let has_wc: bool;
        let has_col: bool;
        let step: InferStep;
        {
            let d = match self.root_mod.get(t) {
                Some(d) => d,
                None => {
                    proof {
                        assert(!table_at(m0, t@.path, t@.name));
                        assert(!table_at(base, t@.path, t@.name));
                    }
                    return Err(NameError::Internal { ident: t.clone() });
                },
            };
            let td = match &d.kind {
                DeclKind::TableDecl(td) => td,
                _ => {
                    proof {
                        assert(!table_at(m0, t@.path, t@.name));
                        assert(!table_at(base, t@.path, t@.name));
                    }
                    return Err(NameError::Internal { ident: t.clone() });
                },
            };
            proof {
                assert(table_cols(m0, t@.path, t@.name) == td.columns@);
                assert(table_at(m0, t@.path, t@.name));
                assert(table_at(base, t@.path, t@.name));
                lemma_step_keeps_wildcard(
                    table_cols(base, t@.path, t@.name),
                    table_cols(m0, t@.path, t@.name),
                    col@,
                );
                assert(table_expr(base, t@.path, t@.name) == table_expr(m0, t@.path, t@.name));
                assert(frame_of_table(base, t@) == frame_of_table(m0, t@));
            }
            has_wc = cols_contain_wildcard(&td.columns);
            if !has_wc {
                return Err(NameError::NoWildcardOnTable { table: t.clone() });
            }
            has_col = cols_contain_named(&td.columns, col);
            if has_col {
                return Ok(());
            }
            proof {
                assert(!rc_has_named(table_cols(base, t@.path, t@.name), col@));
                assert(!granted.contains(t@));
            }
            step = match &td.expr {
                Some(b) => match &b.ty {
                    Some(Ty::Table(f)) => {
                        proof {
                            assert(table_expr(m0, t@.path, t@.name) == td.expr);
                            assert(frame_of_table(m0, t@) == Some(f@));
                        }
                        let names = collect_wc_names(&f.columns);
                        let ghost ws: Seq<Seq<char>> = wc_names(f@.columns);
                        proof {
                            assert(names.deep_view() == ws);
                            assert(names@.len() == ws.len());
                        }
                        if names.len() == 0 {
                            InferStep::NoInputs
                        } else if names.len() > 1 {
                            InferStep::ManyInputs(names)
                        } else {
                            proof {
                                assert(names@[0]@ == ws[0]);
                            }
                            match f.find_input(&names[0]) {
                                None => {
                                    proof {
                                        assert(input_idx(f@.inputs, ws[0]) == -1);
                                    }
                                    InferStep::MissingInput
                                },
                                Some(inp) => {
                                    let ghost gii: int = input_idx(f@.inputs, ws[0]);
                                    proof {
                                        crate::frame::lemma_input_idx(f@.inputs, ws[0]);
                                        assert(gii >= 0);
                                        assert(f@.inputs[gii] == f.inputs@[gii]@);
                                        assert(*inp == f.inputs@[gii]);
                                        assert(inp@ == f@.inputs[gii]);
                                    }
                                    match &inp.table {
                                        None => {
                                            proof {
                                                assert(f@.inputs[gii].table is None);
                                            }
                                            InferStep::Stop
                                        },
                                        Some(u) => {
                                            let uc = u.clone();
                                            proof {
                                                assert(f@.inputs[gii].table == Some(u@));
                                                assert(uc@ == u@);
                                            }
                                            InferStep::Upstream(uc)
                                        },
                                    }
                                },
                            }
                        }
                    },
                    _ => {
                        proof {
                            assert(table_expr(m0, t@.path, t@.name) == td.expr);
                            assert(frame_of_table(m0, t@) is None);
                        }
                        InferStep::NoFrame
                    },
                },
                None => {
                    proof {
                        assert(table_expr(m0, t@.path, t@.name) == td.expr);
                        assert(frame_of_table(m0, t@) is None);
                    }
                    InferStep::NoFrame
                },
            };
        }

        // Write phase: the new column joins the table's declared shape
        // first; on an inference failure below it stays recorded.
        let ghost cols0 = table_cols(m0, t@.path, t@.name);
        self.root_mod.push_table_column(t, RelationColumn::Single(Some(col.clone())));
        let ghost mid: Context = *self;
        let ghost granted2: Set<IdentModel> = granted.insert(t@);
        proof {
            let colval = RelationColumn::Single(Some(*col));
            let full = t@.path.push(t@.name);
            assert(table_cols(mid.root_mod, t@.path, t@.name) == cols0.push(colval));
            lemma_has_named_push_named(cols0, *col);
            assert forall|p: Seq<Seq<char>>, n2: Seq<char>|
                !(p == t@.path && n2 == t@.name) implies #[trigger] table_cols(mid.root_mod, p, n2)
                == table_cols(m0, p, n2) by {
                let q = p.push(n2);
                if !q.is_prefix_of(full) {
                    assert(get_spec(mid.root_mod, p, n2) == get_spec(m0, p, n2));
                } else if q.len() == full.len() {
                    assert(q =~= full);
                    assert(q.drop_last() =~= p);
                    assert(full.drop_last() =~= t@.path);
                    assert(p == t@.path);
                    assert(n2 == q.last());
                    assert(n2 == full.last());
                } else {
                    crate::module::lemma_table_prefix_modules(m0, t@.path, t@.name, p, n2);
                    crate::module::lemma_table_prefix_modules(
                        mid.root_mod,
                        t@.path,
                        t@.name,
                        p,
                        n2,
                    );
                    assert(table_cols(m0, p, n2) =~= Seq::<RelationColumn>::empty());
                    assert(table_cols(mid.root_mod, p, n2) =~= Seq::<RelationColumn>::empty());
                }
            }
            assert forall|p: Seq<Seq<char>>, n2: Seq<char>| cols_step(
                #[trigger] table_cols(m0, p, n2),
                table_cols(mid.root_mod, p, n2),
                col@,
            ) by {
                if p == t@.path && n2 == t@.name {
                    assert(!rc_has_named(table_cols(m0, p, n2), col@));
                    assert(table_cols(mid.root_mod, p, n2).last() == colval);
                    assert(rc_named(colval, col@));
                }
            }
            // The tree now relates to the walk's base tree with this
            // table granted the column.
            assert forall|p: Seq<Seq<char>>, n2: Seq<char>| #[trigger] table_at(mid.root_mod, p, n2)
                == table_at(base, p, n2) by {}
            assert forall|p: Seq<Seq<char>>, n2: Seq<char>| #[trigger] table_expr(
                mid.root_mod,
                p,
                n2,
            ) == table_expr(base, p, n2) by {}
            assert forall|p: Seq<Seq<char>>, n2: Seq<char>| cols_step(
                table_cols(base, p, n2),
                #[trigger] table_cols(mid.root_mod, p, n2),
                col@,
            ) by {
                lemma_cols_step_trans(
                    table_cols(base, p, n2),
                    table_cols(m0, p, n2),
                    table_cols(mid.root_mod, p, n2),
                    col@,
                );
            }
            assert forall|p: Seq<Seq<char>>, n2: Seq<char>| rc_has_named(
                #[trigger] table_cols(mid.root_mod, p, n2),
                col@,
            ) <==> (rc_has_named(table_cols(base, p, n2), col@) || (granted2.contains(
                IdentModel { path: p, name: n2 },
            ) && table_at(base, p, n2))) by {
                if p == t@.path && n2 == t@.name {
                    assert(IdentModel { path: p, name: n2 } == t@);
                    assert(rc_has_named(table_cols(mid.root_mod, p, n2), col@));
                    assert(granted2.contains(t@));
                } else {
                    assert(table_cols(mid.root_mod, p, n2) == table_cols(m0, p, n2));
                    if (IdentModel { path: p, name: n2 }) == t@ {
                        assert(p == t@.path && n2 == t@.name);
                    }
                    assert(granted2.contains(IdentModel { path: p, name: n2 })
                        == granted.contains(IdentModel { path: p, name: n2 }));
                }
            }
            assert(walk_state(base, granted2, mid.root_mod, col@));
            assert(rc_named(colval, col@));
            assert forall|p: Seq<Seq<char>>, n2: Seq<char>| decl_kept(
                #[trigger] get_spec(m0, p, n2),
                get_spec(mid.root_mod, p, n2),
                col@,
            ) by {}
        }

        match step {
            InferStep::NoFrame | InferStep::Stop => Ok(()),
            InferStep::NoInputs => Err(
                NameError::InferenceImpossible { table: t.clone(), column: col.clone() },
            ),
            InferStep::ManyInputs(names) => Err(
                NameError::InferenceAmbiguous {
                    table: t.clone(),
                    column: col.clone(),
                    inputs: names,
                },
            ),
            InferStep::MissingInput => Err(NameError::Internal { ident: t.clone() }),
            InferStep::Upstream(u) => {
                let res = self.infer_rec(&u, col, fuel - 1, Ghost(base), Ghost(granted2));
                proof {
                    assert((fuel - 1) as nat == (fuel as nat) - 1);
                    assert(res is Ok <==> infer_ok_from(
                        base,
                        u@,
                        col@,
                        granted.insert(t@),
                        (fuel - 1) as nat,
                    ));
                    assert forall|p: Seq<Seq<char>>, n2: Seq<char>| cols_step(
                        #[trigger] table_cols(m0, p, n2),
                        table_cols(self.root_mod, p, n2),
                        col@,
                    ) by {
                        lemma_cols_step_trans(
                            table_cols(m0, p, n2),
                            table_cols(mid.root_mod, p, n2),
                            table_cols(self.root_mod, p, n2),
                            col@,
                        );
                    }
                    assert forall|p: Seq<Seq<char>>, n2: Seq<char>| decl_kept(
                        #[trigger] get_spec(m0, p, n2),
                        get_spec(self.root_mod, p, n2),
                        col@,
                    ) by {
                        lemma_decl_kept_trans(
                            get_spec(m0, p, n2),
                            get_spec(mid.root_mod, p, n2),
                            get_spec(self.root_mod, p, n2),
                            col@,
                        );
                    }
                    if res is Ok {
                        let cmu = table_cols(mid.root_mod, u@.path, u@.name);
                        if rc_has_named(cmu, col@) {
                            let i = choose|i: int| 0 <= i < cmu.len() && rc_named(cmu[i], col@);
                            let cfu = table_cols(self.root_mod, u@.path, u@.name);
                            assert(cols_step(cmu, cfu, col@));
                            if cfu == cmu {
                                assert(rc_has_named(cfu, col@));
                            } else {
                                assert(cfu[i] == cmu[i]);
                                assert(rc_has_named(cfu, col@));
                            }
                        } else {
                            let c = choose|c: RelationColumn| rc_named(c, col@) && table_cols(
                                self.root_mod,
                                u@.path,
                                u@.name,
                            ) == cmu.push(c);
                            let cfu = table_cols(self.root_mod, u@.path, u@.name);
                            assert(cfu.last() == c);
                            assert(rc_has_named(cfu, col@)) by {
                                assert(rc_named(cfu[cfu.len() - 1], col@));
                            }
                        }
                    }
                }
                res
            },
        }
    }
}

/// The model of an identifier, written out for use in contracts.
pub open spec fn t_model(t: &Ident) -> IdentModel {
    t@
}

/// What one inference call promises, phrased over the state it started
/// from: which error comes on which tables, that an already-present
/// column changes nothing, that a missing column is appended exactly
/// once, and that on success it reaches the upstream table as well.
pub open spec fn infer_outcome(
    c0: Context,
    c1: Context,
    tm: IdentModel,
    col: Seq<char>,
    r: Result<(), NameError>,
) -> bool {
    let m0 = c0.root_mod;
    let cols0 = table_cols(m0, tm.path, tm.name);
    &&& (!table_at(m0, tm.path, tm.name) ==> (r matches Err(NameError::Internal { .. })) && c1
        == c0)
    &&& (table_at(m0, tm.path, tm.name) && !rc_has_wildcard(cols0) ==> c1 == c0 && (r matches Err(
        NameError::NoWildcardOnTable { table },
    ) && table@ == tm))
    &&& (table_at(m0, tm.path, tm.name) && rc_has_wildcard(cols0) && rc_has_named(cols0, col)
        ==> r is Ok && c1 == c0)
    &&& (table_at(m0, tm.path, tm.name) && rc_has_wildcard(cols0) && !rc_has_named(cols0, col)
        ==> ({
        &&& exists|c: RelationColumn| rc_named(c, col) && table_cols(c1.root_mod, tm.path, tm.name)
            == cols0.push(c)
        &&& match frame_of_table(m0, tm) {
            None => r is Ok,
            Some(f) => {
                let ws = wc_names(f.columns);
                &&& (ws.len() == 0 ==> (r matches Err(NameError::InferenceImpossible {
                    table,
                    column,
                }) && table@ == tm && column@ == col))
                &&& (ws.len() > 1 ==> (r matches Err(NameError::InferenceAmbiguous {
                    table,
                    column,
                    inputs,
                }) && table@ == tm && column@ == col && inputs.deep_view() == ws))
                &&& (ws.len() == 1 ==> ({
                    let ii = input_idx(f.inputs, ws[0]);
                    ii >= 0 ==> match f.inputs[ii].table {
                        Some(u) => r is Ok ==> rc_has_named(
                            table_cols(c1.root_mod, u.path, u.name),
                            col,
                        ),
                        None => r is Ok,
                    }
                }))
            },
        }
    }))
}

/// Whether some column of the list is the wildcard marker.
fn cols_contain_wildcard(cols: &Vec<RelationColumn>) -> (r: bool)
    ensures
        r == rc_has_wildcard(cols@),
{
    let mut k: usize = 0;
    while k < cols.len()
        invariant
            k <= cols@.len(),
            forall|i: int| 0 <= i < k ==> !crate::rq::rc_wildcard(#[trigger] cols@[i]),
        decreases cols@.len() - k,
    {
        if let RelationColumn::Wildcard = &cols[k] {
            return true;
        }
        k += 1;
    }
    false
}

/// Whether some column of the list is a single column with this name.
fn cols_contain_named(cols: &Vec<RelationColumn>, n: &String) -> (r: bool)
    ensures
        r == rc_has_named(cols@, n@),
{
    let mut k: usize = 0;
    while k < cols.len()
        invariant
            k <= cols@.len(),
            forall|i: int| 0 <= i < k ==> !rc_named(#[trigger] cols@[i], n@),
        decreases cols@.len() - k,
    {
        let hit: bool = match &cols[k] {
            RelationColumn::Single(Some(s)) => *s == *n,
            _ => false,
        };
        if hit {
            return true;
        }
        k += 1;
    }
    false
}

/// The input names of the wildcard columns, in column order.
fn collect_wc_names(cols: &Vec<FrameColumn>) -> (r: Vec<String>)
    ensures
        r.deep_view() == wc_names(cols.deep_view()),
{
    let mut out: Vec<String> = Vec::new();
    let mut k: usize = 0;
    proof {
        assert(cols.deep_view().take(0) =~= Seq::<ColModel>::empty());
    }
    while k < cols.len()
        invariant
            k <= cols@.len(),
            out.deep_view() =~= wc_names(cols.deep_view().take(k as int)),
        decreases cols@.len() - k,
    {
        let ghost before: Seq<Seq<char>> = out.deep_view();
        if let FrameColumn::Wildcard { input_name } = &cols[k] {
            out.push(input_name.clone());
        }
        proof {
            assert(cols.deep_view().take(k + 1 as int).drop_last() =~= cols.deep_view().take(
                k as int,
            ));
            assert(cols.deep_view().take(k + 1 as int).last() == cols.deep_view()[k as int]);
            assert(out.deep_view() =~= wc_names(cols.deep_view().take(k + 1 as int)));
        }
        k += 1;
    }
    proof {
        assert(cols.deep_view().take(cols@.len() as int) =~= cols.deep_view());
    }
    out
}

/// A single column named `n` is found in a list it was appended to.
proof fn lemma_has_named_push_named(s: Seq<RelationColumn>, n: String)
    ensures
        rc_has_named(s.push(RelationColumn::Single(Some(n))), n@),
{
    let s2 = s.push(RelationColumn::Single(Some(n)));
    assert(rc_named(s2[s2.len() - 1], n@));
}


} // verus!
