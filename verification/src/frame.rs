//! The frame: the evolving column shape of a relation under construction.

use vstd::prelude::*;
use vstd::string::StringExecFns;
use crate::ident::{Ident, IdentModel, ident_text};
use crate::pl::{Expr, ExprKind, assign_name, is_star_expr, star_input_model, expr_id_model};
use crate::render::{dec_model, dec_string, join_model, join_with};

verus! {

/// Model of one frame column.
#[verifier::ext_equal]
pub enum ColModel {
    Wildcard { input_name: Seq<char> },
    Single { name: Option<IdentModel>, expr_id: nat },
}

/// Model of one frame input.
#[verifier::ext_equal]
pub struct InputModel {
    pub id: nat,
    pub name: Seq<char>,
    pub table: Option<IdentModel>,
}

/// Model of a frame.
#[verifier::ext_equal]
pub struct FrameModel {
    pub columns: Seq<ColModel>,
    pub inputs: Seq<InputModel>,
}

/// One column of a frame: either all not-yet-enumerated columns of one
/// input, or a single expression, optionally named.
#[derive(Clone, Debug, PartialEq)]
pub enum FrameColumn {
    /// Used for `foo_table.*`.
    Wildcard { input_name: String },
    /// One concrete expression, tagged with the AST node that produced it.
    Single { name: Option<Ident>, expr_id: usize },
}

/// One base relation contributing columns to a frame.
#[derive(Clone, Debug, PartialEq)]
pub struct FrameInput {
    /// Id of the AST node that declares this input.
    pub id: usize,
    /// Local name of this input within a query.
    pub name: String,
    /// Fully qualified name of the table providing the data; absent when
    /// the input is a literal and refers to no table.
    pub table: Option<Ident>,
}

/// The object manipulated by the pipeline transforms: an ordered column
/// list plus the inputs the columns are drawn from.
#[derive(Clone, Debug, PartialEq)]
pub struct Frame {
    pub columns: Vec<FrameColumn>,
    pub inputs: Vec<FrameInput>,
}

impl View for FrameColumn {
    type V = ColModel;

    open spec fn view(&self) -> ColModel {
        match self {
            FrameColumn::Wildcard { input_name } => ColModel::Wildcard { input_name: input_name@ },
            FrameColumn::Single { name, expr_id } => ColModel::Single {
                name: name.deep_view(),
                expr_id: *expr_id as nat,
            },
        }
    }
}

impl DeepView for FrameColumn {
    type V = ColModel;

    open spec fn deep_view(&self) -> ColModel {
        self@
    }
}

impl View for FrameInput {
    type V = InputModel;

    open spec fn view(&self) -> InputModel {
        InputModel { id: self.id as nat, name: self.name@, table: self.table.deep_view() }
    }
}

impl DeepView for FrameInput {
    type V = InputModel;

    open spec fn deep_view(&self) -> InputModel {
        self@
    }
}

impl View for Frame {
    type V = FrameModel;

    open spec fn view(&self) -> FrameModel {
        FrameModel { columns: self.columns.deep_view(), inputs: self.inputs.deep_view() }
    }
}

impl DeepView for Frame {
    type V = FrameModel;

    open spec fn deep_view(&self) -> FrameModel {
        self@
    }
}

/// Whether a column is a single column carrying exactly this name.
pub open spec fn col_named(c: ColModel, n: Seq<char>) -> bool {
    match c {
        ColModel::Single { name: Some(im), .. } => im.name == n,
        _ => false,
    }
}

/// The column with its name removed; wildcards are unchanged.
pub open spec fn cleared(c: ColModel) -> ColModel {
    match c {
        ColModel::Single { name, expr_id } => ColModel::Single { name: None, expr_id },
        w => w,
    }
}

/// Every single column carrying the given name, stripped of it.
pub open spec fn strip_named(cols: Seq<ColModel>, n: Seq<char>) -> Seq<ColModel> {
    Seq::new(cols.len(), |i: int| if col_named(cols[i], n) { cleared(cols[i]) } else { cols[i] })
}

/// The column list after one assignment: a wildcard identifier appends a
/// wildcard column and changes nothing else; a named expression strips its
/// name from every existing column and appends a single column carrying
/// it; an anonymous expression appends an unnamed single column.
pub open spec fn apply_assign_model(cols: Seq<ColModel>, e: Expr) -> Seq<ColModel> {
    if is_star_expr(e) {
        cols.push(ColModel::Wildcard { input_name: star_input_model(e) })
    } else {
        match assign_name(e) {
            Some(n) => strip_named(cols, n).push(
                ColModel::Single {
                    name: Some(IdentModel { path: Seq::empty(), name: n }),
                    expr_id: expr_id_model(e),
                },
            ),
            None => cols.push(ColModel::Single { name: None, expr_id: expr_id_model(e) }),
        }
    }
}

/// The column list after a sequence of assignments, applied in order.
pub open spec fn apply_assigns_model(cols: Seq<ColModel>, exprs: Seq<Expr>) -> Seq<ColModel>
    decreases exprs.len(),
{
    if exprs.len() == 0 {
        cols
    } else {
        apply_assign_model(apply_assigns_model(cols, exprs.drop_last()), exprs.last())
    }
}

/// What an expression must satisfy before it can be assigned: it carries an
/// AST id, and a wildcard identifier names the input it ranges over.
pub open spec fn assignable(e: Expr) -> bool {
    &&& e.id is Some
    &&& (is_star_expr(e) ==> match e.kind {
        ExprKind::Ident(i) => i@.path.len() > 0,
        _ => false,
    })
}

/// First index of an input with the given local name, or -1.
pub open spec fn input_idx(inputs: Seq<InputModel>, n: Seq<char>) -> int
    decreases inputs.len(),
{
    if inputs.len() == 0 {
        -1
    } else if inputs[0].name == n {
        0
    } else {
        let r = input_idx(inputs.drop_first(), n);
        if r < 0 {
            -1
        } else {
            r + 1
        }
    }
}

pub proof fn lemma_input_idx(inputs: Seq<InputModel>, n: Seq<char>)
    ensures
        -1 <= input_idx(inputs, n) < inputs.len(),
        input_idx(inputs, n) >= 0 ==> inputs[input_idx(inputs, n)].name == n,
        input_idx(inputs, n) == -1 ==> forall|i: int|
            0 <= i < inputs.len() ==> #[trigger] inputs[i].name != n,
        forall|i: int| 0 <= i < input_idx(inputs, n) ==> #[trigger] inputs[i].name != n,
    decreases inputs.len(),
{
    if inputs.len() > 0 && inputs[0].name != n {
        lemma_input_idx(inputs.drop_first(), n);
        assert forall|i: int|
            0 <= i < inputs.len() && input_idx(inputs, n) == -1 implies #[trigger] inputs[i].name
            != n by {
            if i > 0 {
                assert(inputs.drop_first()[i - 1] == inputs[i]);
            }
        }
        assert forall|i: int| 0 <= i < input_idx(inputs, n) implies #[trigger] inputs[i].name
            != n by {
            if i > 0 {
                assert(inputs.drop_first()[i - 1] == inputs[i]);
            }
        }
    }
}

impl Default for Frame {
    /// The default frame has no columns and no inputs.
    fn default() -> (r: Frame)
        ensures
            r@.columns.len() == 0,
            r@.inputs.len() == 0,
    {
        Frame::new()
    }
}

impl Frame {
    /// A frame with no columns and no inputs.
    pub fn new() -> (r: Frame)
        ensures
            r@.columns.len() == 0,
            r@.inputs.len() == 0,
    {
        Frame { columns: Vec::new(), inputs: Vec::new() }
    }

    /// Record one assignment. A wildcard identifier appends a wildcard
    /// column for its input and never alters existing columns. Otherwise,
    /// if the expression determines an output name, that name is removed
    /// from every existing column (the later column shadows the earlier
    /// one; the earlier slot stays, anonymous), and a single column
    /// carrying the name and the expression's AST id is appended.
    pub fn apply_assign(&mut self, expr: &Expr)
        requires
            assignable(*expr),
        ensures
            final(self).inputs == old(self).inputs,
            final(self)@.columns == apply_assign_model(old(self)@.columns, *expr),
    {
        let ghost old_cols: Seq<ColModel> = self@.columns;
        let id: usize = expr.id.unwrap();

        if let ExprKind::Ident(ident) = &expr.kind {
            if ident.name == star_local() {
                let input_name = ident.path[ident.path.len() - 1].clone();
                self.columns.push(FrameColumn::Wildcard { input_name });
                proof {
                    assert(self@.columns =~= old_cols.push(
                        ColModel::Wildcard { input_name: star_input_model(*expr) },
                    ));
                }
                return;
            }
        }
        proof {
            assert(!is_star_expr(*expr));
        }

        let col_name: Option<String> = if let Some(a) = &expr.alias {
            Some(a.clone())
        } else if let ExprKind::Ident(i) = &expr.kind {
            Some(i.name.clone())
        } else {
            None
        };

        if let Some(n) = &col_name {
            let ghost nm: Seq<char> = n@;
            proof {
                assert(assign_name(*expr) == Some(nm));
            }
            let mut k: usize = 0;
            while k < self.columns.len()
                invariant
                    nm == n@,
                    k <= self.columns@.len(),
                    self.columns@.len() == old_cols.len(),
                    self.inputs == old(self).inputs,
                    forall|j: int| 0 <= j < k ==> #[trigger] self.columns@[j]@
                        == strip_named(old_cols, nm)[j],
                    forall|j: int| k <= j < old_cols.len()
                        ==> #[trigger] self.columns@[j]@ == old_cols[j],
                decreases self.columns@.len() - k,
            {
                let ghost pre: Seq<FrameColumn> = self.columns@;
                proof {
                    assert(self.columns@[k as int]@ == old_cols[k as int]);
                }
                let needs_clear: bool = col_has_name(&self.columns[k], n);
                proof {
                    assert(needs_clear == col_named(old_cols[k as int], nm));
                }
                if needs_clear {
                    let ghost before: Seq<FrameColumn> = self.columns@;
                    let old_entry = self.columns.remove(k);
                    let new_entry = match old_entry {
                        FrameColumn::Single { name: _, expr_id } => FrameColumn::Single {
                            name: None,
                            expr_id,
                        },
                        w => w,
                    };
                    self.columns.insert(k, new_entry);
                    proof {
                        assert(old_entry@ == old_cols[k as int]);
                        assert(new_entry@ == cleared(old_entry@));
                        assert(self.columns@ =~= before.update(k as int, new_entry));
                        assert(self.columns@[k as int]@ == cleared(old_cols[k as int]));
                    }
                }
                proof {
                    assert(needs_clear == col_named(old_cols[k as int], nm));
                    assert forall|j: int| 0 <= j <= k as int implies #[trigger] self.columns@[j]@
                        == strip_named(old_cols, nm)[j] by {
                        if j < k as int {
                            assert(pre[j]@ == strip_named(old_cols, nm)[j]);
                            assert(self.columns@[j] == pre[j]);
                            assert(self.columns@[j]@ == strip_named(old_cols, nm)[j]);
                        } else {
                            if needs_clear {
                                assert(col_named(old_cols[j], nm));
                                assert(strip_named(old_cols, nm)[j] == cleared(old_cols[j]));
                                assert(self.columns@[j]@ == cleared(old_cols[j]));
                            } else {
                                assert(!col_named(old_cols[j], nm));
                                assert(strip_named(old_cols, nm)[j] == old_cols[j]);
                                assert(self.columns@[j] == pre[j]);
                                assert(self.columns@[j]@ == old_cols[j]);
                            }
                        }
                    }
                }
                k += 1;
            }
            let single = FrameColumn::Single { name: Some(Ident::from_name(n.clone())), expr_id: id };
            proof {
                assert(single@ == ColModel::Single {
                    name: Some(IdentModel { path: Seq::empty(), name: nm }),
                    expr_id: id as nat,
                });
            }
            self.columns.push(single);
            proof {
                assert(self@.columns =~= apply_assign_model(old_cols, *expr));
            }
        } else {
            proof {
                assert(assign_name(*expr) is None);
            }
            self.columns.push(FrameColumn::Single { name: None, expr_id: id });
            proof {
                assert(self@.columns =~= apply_assign_model(old_cols, *expr));
            }
        }
    }

    /// Record the assignments in declaration order; the order decides both
    /// the final column order and which column ends up carrying a name
    /// claimed by several assignments.
    pub fn apply_assigns(&mut self, assigns: &Vec<Expr>)
        requires
            forall|i: int| 0 <= i < assigns@.len() ==> assignable(#[trigger] assigns@[i]),
        ensures
            final(self).inputs == old(self).inputs,
            final(self)@.columns == apply_assigns_model(old(self)@.columns, assigns@),
    {
        let ghost cols0: Seq<ColModel> = self@.columns;
        let mut k: usize = 0;
        while k < assigns.len()
            invariant
                k <= assigns@.len(),
                self.inputs == old(self).inputs,
                self@.columns == apply_assigns_model(cols0, assigns@.take(k as int)),
                forall|i: int| 0 <= i < assigns@.len() ==> assignable(#[trigger] assigns@[i]),
            decreases assigns@.len() - k,
        {
            self.apply_assign(&assigns[k]);
            proof {
                assert(assigns@.take(k + 1 as int).drop_last() =~= assigns@.take(k as int));
                assert(assigns@.take(k + 1 as int).last() == assigns@[k as int]);
            }
            k += 1;
        }
        proof {
            assert(assigns@.take(assigns@.len() as int) =~= assigns@);
        }
    }

    /// Find the input with this local name; the first such input if the
    /// name is used more than once, and nothing if it is absent.
    pub fn find_input(&self, input_name: &String) -> (r: Option<&FrameInput>)
        ensures
            match r {
                Some(inp) => {
                    &&& input_idx(self@.inputs, input_name@) >= 0
                    &&& *inp == self.inputs@[input_idx(self@.inputs, input_name@)]
                },
                None => input_idx(self@.inputs, input_name@) == -1,
            },
    {
        proof {
            lemma_input_idx(self@.inputs, input_name@);
        }
        let mut k: usize = 0;
        while k < self.inputs.len()
            invariant
                k <= self.inputs@.len(),
                forall|i: int| 0 <= i < k ==> #[trigger] self.inputs@[i]@.name != input_name@,
            decreases self.inputs@.len() - k,
        {
            if self.inputs[k].name == *input_name {
                proof {
                    lemma_input_idx_first(self@.inputs, input_name@, k as int);
                }
                return Some(&self.inputs[k]);
            }
            k += 1;
        }
        None
    }
}

/// If every input before `k` lacks the name and input `k` has it, then `k`
/// is the index that `input_idx` finds.
proof fn lemma_input_idx_first(inputs: Seq<InputModel>, n: Seq<char>, k: int)
    requires
        0 <= k < inputs.len(),
        inputs[k].name == n,
        forall|i: int| 0 <= i < k ==> #[trigger] inputs[i].name != n,
    ensures
        input_idx(inputs, n) == k,
    decreases inputs.len(),
{
    if k > 0 {
        lemma_input_idx_first(inputs.drop_first(), n, k - 1);
    }
}

/// No two single columns of the list carry the same name.
pub open spec fn names_unique(cols: Seq<ColModel>) -> bool {
    forall|i: int, j: int, n: Seq<char>| !(0 <= i < j < cols.len()
        && #[trigger] col_named(cols[i], n) && #[trigger] col_named(cols[j], n))
}

/// Law: after assigning an expression whose output name is `n`, exactly the
/// appended column carries `n`; every earlier column carrying `n` was
/// stripped of it.
pub proof fn lemma_assign_name_unique(cols: Seq<ColModel>, e: Expr, n: Seq<char>)
    requires
        !is_star_expr(e),
        assign_name(e) == Some(n),
    ensures
        col_named(apply_assign_model(cols, e).last(), n),
        forall|i: int| 0 <= i < apply_assign_model(cols, e).len() - 1
            ==> !col_named(#[trigger] apply_assign_model(cols, e)[i], n),
{
}

/// Law: an assignment preserves name uniqueness, so any sequence of
/// assignments starting from a frame with unique names — the empty frame
/// included — leaves at most one single column carrying any given name.
pub proof fn lemma_assign_keeps_names_unique(cols: Seq<ColModel>, e: Expr)
    requires
        names_unique(cols),
    ensures
        names_unique(apply_assign_model(cols, e)),
{
    let after = apply_assign_model(cols, e);
    assert forall|i: int, j: int, n: Seq<char>| !(0 <= i < j < after.len()
        && #[trigger] col_named(after[i], n) && #[trigger] col_named(after[j], n)) by {
        if 0 <= i < j < after.len() && col_named(after[i], n) && col_named(after[j], n) {
            if is_star_expr(e) {
                assert(col_named(cols[i], n) && col_named(cols[j], n));
            } else {
                match assign_name(e) {
                    Some(m) => {
                        if j < after.len() - 1 {
                            assert(col_named(cols[i], n) && col_named(cols[j], n));
                        } else {
                            assert(n == m);
                            assert(!col_named(after[i], m));
                        }
                    },
                    None => {
                        if j < after.len() - 1 {
                            assert(col_named(cols[i], n) && col_named(cols[j], n));
                        }
                    },
                }
            }
        }
    }
}

/// Law: any sequence of assignments applied to a frame with unique
/// names — the empty frame included — leaves the names unique.
pub proof fn lemma_assigns_keep_names_unique(cols: Seq<ColModel>, exprs: Seq<Expr>)
    requires
        names_unique(cols),
    ensures
        names_unique(apply_assigns_model(cols, exprs)),
    decreases exprs.len(),
{
    if exprs.len() > 0 {
        lemma_assigns_keep_names_unique(cols, exprs.drop_last());
        lemma_assign_keeps_names_unique(apply_assigns_model(cols, exprs.drop_last()), exprs.last());
    }
}

/// Law: a wildcard assignment is order-preserving and non-destructive — it
/// never alters existing columns, it only appends one wildcard entry.
pub proof fn lemma_wildcard_assign_appends(cols: Seq<ColModel>, e: Expr)
    requires
        is_star_expr(e),
    ensures
        apply_assign_model(cols, e).len() == cols.len() + 1,
        forall|i: int| 0 <= i < cols.len()
            ==> #[trigger] apply_assign_model(cols, e)[i] == cols[i],
        apply_assign_model(cols, e).last() matches ColModel::Wildcard { input_name }
            && input_name == star_input_model(e),
{
}

/// Sort direction of one sort key.
#[derive(Clone, Copy, Debug, PartialEq, Eq)]
pub enum SortDirection {
    Asc,
    Desc,
}

impl Default for SortDirection {
    /// The default direction is ascending.
    fn default() -> (r: Self)
        ensures
            r matches SortDirection::Asc,
    {
        SortDirection::Asc
    }
}

/// A sort key paired with its direction.
#[derive(Clone, Debug, PartialEq)]
pub struct ColumnSort<T> {
    pub direction: SortDirection,
    pub column: T,
}

/// The text of one frame column: `input.*` for a wildcard; the column
/// name, or `?` for an anonymous column; with ids shown, `:<id>` appended.
pub open spec fn frame_col_text(c: ColModel, display_ids: bool) -> Seq<char> {
    match c {
        ColModel::Wildcard { input_name } => input_name + ".*"@,
        ColModel::Single { name, expr_id } => {
            let base = match name {
                Some(im) => ident_text(im),
                None => "?"@,
            };
            if display_ids {
                base + ":"@ + dec_model(expr_id)
            } else {
                base
            }
        },
    }
}

/// Render one frame column.
pub fn display_frame_column(col: &FrameColumn, display_ids: bool) -> (r: String)
    ensures
        r@ == frame_col_text(col@, display_ids),
{
    match col {
        FrameColumn::Wildcard { input_name } => {
            let mut s = input_name.clone();
            s.append(".*");
            s
        },
        FrameColumn::Single { name, expr_id } => {
            let mut s = match name {
                Some(id2) => id2.display(),
                None => "?".to_owned(),
            };
            if display_ids {
                s.append(":");
                let d = dec_string(*expr_id);
                s.append(d.as_str());
            }
            s
        },
    }
}

/// The text of a whole frame: its columns joined inside brackets.
pub open spec fn frame_text(cols: Seq<ColModel>, display_ids: bool) -> Seq<char> {
    "["@ + join_model(Seq::new(cols.len(), |i: int| frame_col_text(cols[i], display_ids)), ", "@)
        + "]"@
}

/// Render a whole frame as `[a, tbl.*, ?]`.
pub fn display_frame(frame: &Frame, display_ids: bool) -> (r: String)
    ensures
        r@ == frame_text(frame@.columns, display_ids),
{
    let mut parts: Vec<String> = Vec::new();
    let mut k: usize = 0;
    while k < frame.columns.len()
        invariant
            k <= frame.columns@.len(),
            parts@.len() == k,
            forall|i: int| 0 <= i < k ==> #[trigger] parts@[i]@ == frame_col_text(
                frame@.columns[i],
                display_ids,
            ),
        decreases frame.columns@.len() - k,
    {
        proof {
            assert(frame@.columns[k as int] == frame.columns@[k as int]@);
        }
        parts.push(display_frame_column(&frame.columns[k], display_ids));
        k += 1;
    }
    proof {
        let texts = Seq::new(
            frame@.columns.len(),
            |i: int| frame_col_text(frame@.columns[i], display_ids),
        );
        assert forall|i: int| 0 <= i < parts@.len() implies #[trigger] parts.deep_view()[i]
            == texts[i] by {
            assert(parts.deep_view()[i] == parts@[i]@);
        }
        assert(parts.deep_view() =~= texts);
    }
    let joined = join_with(&parts, ", ");
    let mut s = "[".to_owned();
    s.append(joined.as_str());
    s.append("]");
    s
}

impl Frame {
    /// Render this frame without expression ids.
    pub fn display(&self) -> (r: String)
        ensures
            r@ == frame_text(self@.columns, false),
    {
        display_frame(self, false)
    }
}

/// Whether the column is a single column carrying exactly this name.
fn col_has_name(c: &FrameColumn, n: &String) -> (r: bool)
    ensures
        r == col_named(c@, n@),
{
    match c {
        FrameColumn::Single { name: Some(id2), .. } => id2.name == *n,
        _ => false,
    }
}

/// The wildcard name, for comparing against identifier names.
fn star_local() -> (r: String)
    ensures
        r@ == "*"@,
{
    crate::pl::star_string()
}

} // verus!
