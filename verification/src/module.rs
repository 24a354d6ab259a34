//! The namespace tree: nested, insertion-ordered scopes of declarations.

use vstd::prelude::*;
use vstd::string::StringExecFns;
use crate::ident::{ident_text, Ident};
use crate::pl::{Expr, FuncDef};
use crate::render::{dec_model, dec_string};
use crate::rq::{display_relation_columns, rc_named, rel_cols_text, RelationColumn};

verus! {

/// A declaration bound to a name in the namespace tree.
#[derive(Debug)]
pub struct Decl {
    /// Id of the AST node this declaration came from.
    pub declared_at: Option<usize>,
    pub kind: DeclKind,
}

/// The kinds of declaration a name can be bound to.
#[derive(Debug)]
pub enum DeclKind {
    /// A nested namespace.
    Module(Module),
    /// A shadowing stack of namespaces; lookups collect a candidate from
    /// every layer that matches.
    LayeredModules(Vec<Module>),
    /// A table declaration.
    TableDecl(TableDecl),
    /// The name is bound to a row instance of the given table, enabling
    /// column-to-table inference.
    InstanceOf(Ident),
    /// A resolved column reference: the id of the expression it targets.
    Column(usize),
    /// A deferred default, materialized into a concrete declaration when a
    /// lookup of a concrete name falls back to the wildcard entry.
    Wildcard(Box<DeclKind>),
    /// A function declaration.
    FuncDef(FuncDef),
    /// A literal-expression declaration.
    Expr(Box<Expr>),
    /// Explicitly unresolvable.
    NoResolve,
}

/// A table declaration: the declared column layout, and the defining
/// expression — absent for an external (database-native) table, present
/// for a computed one.
#[derive(Clone, Debug, PartialEq)]
pub struct TableDecl {
    pub columns: Vec<RelationColumn>,
    pub expr: Option<Box<Expr>>,
}

/// The column-shape unit of a table whose type is fixed.
#[derive(Clone, Debug, PartialEq)]
pub enum TableColumn {
    Wildcard,
    Single(Option<String>),
}

/// One namespace: an insertion-ordered mapping from local names to
/// declarations.
#[derive(Debug)]
pub struct Module {
    pub names: Vec<(String, Decl)>,
}

/// A deep copy of a declaration; as for a derived clone, nothing is
/// specified of the result.
pub fn clone_decl(d: &Decl) -> Decl
    decreases d,
{
    Decl { declared_at: d.declared_at, kind: clone_decl_kind(&d.kind) }
}

/// A deep copy of a namespace.
pub fn clone_module(m: &Module) -> Module
    decreases m,
{
    let mut names: Vec<(String, Decl)> = Vec::new();
    let mut k: usize = 0;
    while k < m.names.len()
        invariant
            k <= m.names@.len(),
        decreases m.names@.len() - k,
    {
        proof {
            assert(decreases_to!(*m => m.names));
            assert(decreases_to!(m.names => m.names@));
            assert(decreases_to!(m.names@ => m.names@[k as int]));
            assert(decreases_to!(m.names@[k as int] => m.names@[k as int].1));
        }
        let entry = &m.names[k];
        names.push((entry.0.clone(), clone_decl(&entry.1)));
        k += 1;
    }
    Module { names }
}

/// A deep copy of a declaration kind: the kind of declaration is
/// preserved, and the payloads of the flat kinds are copied exactly (a
/// column target verbatim, an instance table and a wildcard's default up
/// to their models); of the copied containers nothing further is
/// specified, as for a derived clone.
pub fn clone_decl_kind(k: &DeclKind) -> (r: DeclKind)
    ensures
        r is Module <==> (*k) is Module,
        r is LayeredModules <==> (*k) is LayeredModules,
        r is TableDecl <==> (*k) is TableDecl,
        r is Wildcard <==> (*k) is Wildcard,
        r is FuncDef <==> (*k) is FuncDef,
        r is Expr <==> (*k) is Expr,
        r is NoResolve <==> (*k) is NoResolve,
        (*k) matches DeclKind::Column(c) ==> r == DeclKind::Column(c),
        (*k) matches DeclKind::InstanceOf(t) ==> (r matches DeclKind::InstanceOf(t2) && t2@
            == t@),
    decreases k,
{
    match k {
        DeclKind::Module(m) => DeclKind::Module(clone_module(m)),
        DeclKind::LayeredModules(v) => {
            let mut stack: Vec<Module> = Vec::new();
            let mut t: usize = 0;
            while t < v.len()
                invariant
                    t <= v@.len(),
                    *k == DeclKind::LayeredModules(*v),
                decreases v@.len() - t,
            {
                proof {
                    assert(*v == k->LayeredModules_0);
                    assert(decreases_to!(*k => k->LayeredModules_0));
                    assert(decreases_to!(k->LayeredModules_0 => k->LayeredModules_0@));
                    assert(decreases_to!(k->LayeredModules_0@ => k->LayeredModules_0@[t as int]));
                }
                stack.push(clone_module(&v[t]));
                t += 1;
            }
            DeclKind::LayeredModules(stack)
        },
        DeclKind::TableDecl(td) => DeclKind::TableDecl(td.clone()),
        DeclKind::InstanceOf(i) => DeclKind::InstanceOf(i.clone()),
        DeclKind::Column(c) => DeclKind::Column(*c),
        DeclKind::Wildcard(b) => DeclKind::Wildcard(Box::new(clone_decl_kind(&**b))),
        DeclKind::FuncDef(f) => DeclKind::FuncDef(f.clone()),
        DeclKind::Expr(b) => DeclKind::Expr(b.clone()),
        DeclKind::NoResolve => DeclKind::NoResolve,
    }
}

/// The one-line text of a declaration kind, chosen here as a stable
/// summary: nested scopes print their kind alone rather than dumping
/// their contents, and the other declarations show what they bind.
pub open spec fn decl_kind_text(k: DeclKind) -> Seq<char>
    decreases k,
{
    match k {
        DeclKind::Module(_) => "Module"@,
        DeclKind::LayeredModules(_) => "LayeredModules"@,
        DeclKind::TableDecl(td) => "TableDecl: "@ + rel_cols_text(td.columns@),
        DeclKind::InstanceOf(i) => "InstanceOf: "@ + ident_text(i@),
        DeclKind::Column(c) => "Column (target "@ + dec_model(c as nat) + ")"@,
        DeclKind::Wildcard(b) => "Wildcard (default: "@ + decl_kind_text(*b) + ")"@,
        DeclKind::FuncDef(f) => "FuncDef: "@ + f.name@,
        DeclKind::Expr(_) => "Expr"@,
        DeclKind::NoResolve => "NoResolve"@,
    }
}

impl DeclKind {
    /// Render a one-line summary of the declaration kind.
    pub fn display(&self) -> (r: String)
        ensures
            r@ == decl_kind_text(*self),
        decreases self,
    {
        match self {
            DeclKind::Module(_) => "Module".to_owned(),
            DeclKind::LayeredModules(_) => "LayeredModules".to_owned(),
            DeclKind::TableDecl(td) => {
                let mut s = "TableDecl: ".to_owned();
                let cols = display_relation_columns(&td.columns);
                s.append(cols.as_str());
                s
            },
            DeclKind::InstanceOf(i) => {
                let mut s = "InstanceOf: ".to_owned();
                let t = i.display();
                s.append(t.as_str());
                s
            },
            DeclKind::Column(c) => {
                let mut s = "Column (target ".to_owned();
                let d = dec_string(*c);
                s.append(d.as_str());
                s.append(")");
                s
            },
            DeclKind::Wildcard(b) => {
                let mut s = "Wildcard (default: ".to_owned();
                let inner = (&**b).display();
                s.append(inner.as_str());
                s.append(")");
                s
            },
            DeclKind::FuncDef(f) => {
                let mut s = "FuncDef: ".to_owned();
                s.append(f.name.as_str());
                s
            },
            DeclKind::Expr(_) => "Expr".to_owned(),
            DeclKind::NoResolve => "NoResolve".to_owned(),
        }
    }
}

impl From<DeclKind> for Decl {
    /// A declaration of this kind that no AST node declared.
    fn from(kind: DeclKind) -> (r: Decl) {
        Decl { declared_at: None, kind }
    }
}

impl vstd::std_specs::convert::FromSpecImpl<DeclKind> for Decl {
    open spec fn obeys_from_spec() -> bool {
        true
    }

    open spec fn from_spec(kind: DeclKind) -> Decl {
        Decl { declared_at: None, kind }
    }
}

impl Default for Module {
    /// The default namespace is empty.
    fn default() -> (r: Module)
        ensures
            r.names@.len() == 0,
    {
        Module::new()
    }
}

impl Default for DeclKind {
    /// The default declaration kind is an empty namespace.
    fn default() -> (r: DeclKind)
        ensures
            r matches DeclKind::Module(m) && m.names@.len() == 0,
    {
        DeclKind::Module(Module::new())
    }
}

impl Decl {
    /// Render the declaration as the text of its kind.
    pub fn display(&self) -> (r: String)
        ensures
            r@ == decl_kind_text(self.kind),
    {
        self.kind.display()
    }
}

/// First index bound to the name, or -1 when the name is absent.
pub open spec fn find_idx(names: Seq<(String, Decl)>, n: Seq<char>) -> int
    decreases names.len(),
{
    if names.len() == 0 {
        -1
    } else if names[0].0@ == n {
        0
    } else {
        let r = find_idx(names.drop_first(), n);
        if r < 0 {
            -1
        } else {
            r + 1
        }
    }
}

/// The declaration bound to the name, if any.
pub open spec fn find_in(names: Seq<(String, Decl)>, n: Seq<char>) -> Option<Decl> {
    if find_idx(names, n) >= 0 {
        Some(names[find_idx(names, n)].1)
    } else {
        None
    }
}

pub proof fn lemma_find_idx(names: Seq<(String, Decl)>, n: Seq<char>)
    ensures
        -1 <= find_idx(names, n) < names.len(),
        find_idx(names, n) >= 0 ==> names[find_idx(names, n)].0@ == n,
        find_idx(names, n) == -1 ==> forall|i: int|
            0 <= i < names.len() ==> #[trigger] names[i].0@ != n,
        forall|i: int| 0 <= i < find_idx(names, n) ==> #[trigger] names[i].0@ != n,
    decreases names.len(),
{
    if names.len() > 0 && names[0].0@ != n {
        lemma_find_idx(names.drop_first(), n);
        assert forall|i: int|
            0 <= i < names.len() && find_idx(names, n) == -1 implies #[trigger] names[i].0@
            != n by {
            if i > 0 {
                assert(names.drop_first()[i - 1] == names[i]);
            }
        }
        assert forall|i: int| 0 <= i < find_idx(names, n) implies #[trigger] names[i].0@ != n by {
            if i > 0 {
                assert(names.drop_first()[i - 1] == names[i]);
            }
        }
    }
}

/// If every entry before `k` has another name and entry `k` has this one,
/// `k` is the index that `find_idx` finds.
pub proof fn lemma_find_idx_first(names: Seq<(String, Decl)>, n: Seq<char>, k: int)
    requires
        0 <= k < names.len(),
        names[k].0@ == n,
        forall|i: int| 0 <= i < k ==> #[trigger] names[i].0@ != n,
    ensures
        find_idx(names, n) == k,
    decreases names.len(),
{
    if k > 0 {
        assert forall|i: int| 0 <= i < k - 1 implies #[trigger] names.drop_first()[i].0@ != n by {
            assert(names.drop_first()[i] == names[i + 1]);
        }
        assert(names.drop_first()[k - 1] == names[k]);
        lemma_find_idx_first(names.drop_first(), n, k - 1);
    }
}

/// `find_idx` depends only on the entry names, not on the declarations.
pub proof fn lemma_find_idx_same_keys(a: Seq<(String, Decl)>, b: Seq<(String, Decl)>, n: Seq<char>)
    requires
        a.len() == b.len(),
        forall|i: int| 0 <= i < a.len() ==> #[trigger] a[i].0@ == b[i].0@,
    ensures
        find_idx(a, n) == find_idx(b, n),
    decreases a.len(),
{
    if a.len() > 0 {
        assert forall|i: int| 0 <= i < a.len() - 1 implies #[trigger] a.drop_first()[i].0@
            == b.drop_first()[i].0@ by {
            assert(a.drop_first()[i] == a[i + 1]);
            assert(b.drop_first()[i] == b[i + 1]);
        }
        lemma_find_idx_same_keys(a.drop_first(), b.drop_first(), n);
    }
}

/// Appending an entry with a fresh name makes it the one `find_idx`
/// finds.
pub proof fn lemma_find_push(names: Seq<(String, Decl)>, e: (String, Decl), n: Seq<char>)
    requires
        find_idx(names, n) == -1,
        e.0@ == n,
    ensures
        find_idx(names.push(e), n) == names.len() as int,
    decreases names.len(),
{
    if names.len() > 0 {
        assert(names.push(e).drop_first() =~= names.drop_first().push(e));
        lemma_find_push(names.drop_first(), e, n);
    }
}

/// Appending an entry of another name leaves `find_idx` unchanged.
pub proof fn lemma_find_push_other(names: Seq<(String, Decl)>, e: (String, Decl), n: Seq<char>)
    requires
        e.0@ != n,
    ensures
        find_idx(names.push(e), n) == find_idx(names, n),
    decreases names.len(),
{
    if names.len() > 0 {
        assert(names.push(e)[0] == names[0]);
        assert(names.push(e).drop_first() =~= names.drop_first().push(e));
        lemma_find_push_other(names.drop_first(), e, n);
        if names[0].0@ == n {
            assert(find_idx(names, n) == 0);
            assert(find_idx(names.push(e), n) == 0);
        } else {
            assert(find_idx(names.push(e).drop_first(), n) == find_idx(names.drop_first(), n));
            assert(find_idx(names.push(e), n) == find_idx(names, n));
        }
    } else {
        assert(names.push(e)[0] == e);
        assert(names.push(e).drop_first() =~= Seq::<(String, Decl)>::empty());
        assert(find_idx(names.push(e).drop_first(), n) == -1);
        assert(find_idx(names.push(e), n) == -1);
    }
}

/// Whether one declaration chain runs along the other: either is a prefix
/// of the other.
pub open spec fn chains_overlap(a: Seq<Seq<char>>, b: Seq<Seq<char>>) -> bool {
    a.is_prefix_of(b) || b.is_prefix_of(a)
}

/// The declaration an exact path lookup reaches: the path segments are
/// followed through nested plain modules, and the name is looked up in the
/// module the last segment reaches.
pub open spec fn get_spec(m: Module, segs: Seq<Seq<char>>, name: Seq<char>) -> Option<Decl>
    decreases segs.len(),
{
    if segs.len() == 0 {
        find_in(m.names@, name)
    } else {
        match find_in(m.names@, segs[0]) {
            Some(d) => match d.kind {
                DeclKind::Module(sub) => get_spec(sub, segs.drop_first(), name),
                _ => None,
            },
            None => None,
        }
    }
}

/// How many declarations a lookup of the path and name reaches. A plain
/// module contributes the matches of its sub-tree; a shadowing stack
/// contributes the matches of every layer, which is where a count above
/// one — an ambiguity — can arise.
pub open spec fn lookup_count(m: Module, segs: Seq<Seq<char>>, name: Seq<char>) -> nat
    decreases segs.len(), 0int,
{
    if segs.len() == 0 {
        if find_idx(m.names@, name) >= 0 {
            1nat
        } else {
            0nat
        }
    } else {
        match find_in(m.names@, segs[0]) {
            Some(d) => match d.kind {
                DeclKind::Module(sub) => lookup_count(sub, segs.drop_first(), name),
                DeclKind::LayeredModules(stack) => layers_count(stack@, segs.drop_first(), name),
                _ => 0nat,
            },
            None => 0nat,
        }
    }
}

/// The matches contributed by the layers of a shadowing stack.
pub open spec fn layers_count(stack: Seq<Module>, segs: Seq<Seq<char>>, name: Seq<char>) -> nat
    decreases segs.len(), stack.len() + 1,
{
    if stack.len() == 0 {
        0nat
    } else {
        lookup_count(stack[0], segs, name) + layers_count(stack.drop_first(), segs, name)
    }
}

/// Whether the path descends through plain modules only, all present.
pub open spec fn plain_path(m: Module, segs: Seq<Seq<char>>) -> bool
    decreases segs.len(),
{
    segs.len() == 0 || (match find_in(m.names@, segs[0]) {
        Some(d) => match d.kind {
            DeclKind::Module(sub) => plain_path(sub, segs.drop_first()),
            _ => false,
        },
        None => false,
    })
}

/// Whether inserting along the path would hit a declaration that is not a
/// plain module.
pub open spec fn blocked(m: Module, segs: Seq<Seq<char>>) -> bool
    decreases segs.len(),
{
    if segs.len() == 0 {
        false
    } else {
        match find_in(m.names@, segs[0]) {
            Some(d) => match d.kind {
                DeclKind::Module(sub) => blocked(sub, segs.drop_first()),
                _ => true,
            },
            None => false,
        }
    }
}

/// Along a plain-module path, a lookup reaches a declaration exactly when
/// an exact get does: exactly one candidate when the name is bound, none
/// otherwise.
pub proof fn lemma_plain_count(m: Module, segs: Seq<Seq<char>>, name: Seq<char>)
    requires
        plain_path(m, segs),
    ensures
        lookup_count(m, segs, name) == (if get_spec(m, segs, name) is Some {
            1nat
        } else {
            0nat
        }),
    decreases segs.len(),
{
    if segs.len() > 0 {
        match find_in(m.names@, segs[0]) {
            Some(d) => match d.kind {
                DeclKind::Module(sub) => {
                    lemma_plain_count(sub, segs.drop_first(), name);
                },
                _ => {},
            },
            None => {},
        }
    }
}

impl Module {
    /// An empty namespace.
    pub fn new() -> (r: Module)
        ensures
            r.names@.len() == 0,
    {
        Module { names: Vec::new() }
    }

    /// Index of the entry bound to this name.
    fn find_entry(&self, n: &String) -> (r: Option<usize>)
        ensures
            match r {
                Some(j) => j < self.names@.len() && find_idx(self.names@, n@) == j as int,
                None => find_idx(self.names@, n@) == -1,
            },
    {
        proof {
            lemma_find_idx(self.names@, n@);
        }
        let mut k: usize = 0;
        while k < self.names.len()
            invariant
                k <= self.names@.len(),
                forall|i: int| 0 <= i < k ==> #[trigger] self.names@[i].0@ != n@,
            decreases self.names@.len() - k,
        {
            if self.names[k].0 == *n {
                proof {
                    lemma_find_idx_first(self.names@, n@, k as int);
                }
                return Some(k);
            }
            k += 1;
        }
        None
    }

    /// Follow the ident's path through nested modules and return the
    /// declaration bound to its name.
    pub fn get(&self, ident: &Ident) -> (r: Option<&Decl>)
        ensures
            match r {
                Some(d) => get_spec(*self, ident@.path, ident@.name) == Some(*d),
                None => get_spec(*self, ident@.path, ident@.name) is None,
            },
    {
        proof {
            assert(ident.path.deep_view().skip(0) =~= ident@.path);
        }
        self.get_at(&ident.path, 0, &ident.name)
    }

    fn get_at(&self, path: &Vec<String>, i: usize, name: &String) -> (r: Option<&Decl>)
        requires
            i <= path@.len(),
        ensures
            match r {
                Some(d) => get_spec(*self, path.deep_view().skip(i as int), name@) == Some(*d),
                None => get_spec(*self, path.deep_view().skip(i as int), name@) is None,
            },
        decreases path@.len() - i,
    {
        let ghost segs: Seq<Seq<char>> = path.deep_view().skip(i as int);
        if i == path.len() {
            match self.find_entry(name) {
                Some(j) => Some(&self.names[j].1),
                None => None,
            }
        } else {
            proof {
                assert(segs[0] == path.deep_view()[i as int]);
                assert(segs.drop_first() =~= path.deep_view().skip(i + 1 as int));
            }
            match self.find_entry(&path[i]) {
                Some(j) => match &self.names[j].1.kind {
                    DeclKind::Module(sub) => sub.get_at(path, i + 1, name),
                    _ => None,
                },
                None => None,
            }
        }
    }

    /// All candidate matches of the ident: one fully qualified ident per
    /// declaration the path and name reach. Several layers of a shadowing
    /// stack can each contribute one candidate; the caller decides whether
    /// more than one is an ambiguity.
    pub fn lookup(&self, ident: &Ident) -> (r: Vec<Ident>)
        ensures
            r@.len() == lookup_count(*self, ident@.path, ident@.name),
            forall|i: int| 0 <= i < r@.len() ==> #[trigger] r@[i]@ == ident@,
    {
        let mut out: Vec<Ident> = Vec::new();
        proof {
            assert(ident.path.deep_view().skip(0) =~= ident@.path);
        }
        self.lookup_at(ident, 0, &mut out);
        out
    }

    fn lookup_at(&self, ident: &Ident, i: usize, out: &mut Vec<Ident>)
        requires
            i <= ident.path@.len(),
        ensures
            final(out)@.len() == old(out)@.len() + lookup_count(
                *self,
                ident@.path.skip(i as int),
                ident@.name,
            ),
            forall|j: int| 0 <= j < old(out)@.len() ==> #[trigger] final(out)@[j] == old(out)@[j],
            forall|j: int| old(out)@.len() <= j < final(out)@.len()
                ==> #[trigger] final(out)@[j]@ == ident@,
        decreases ident.path@.len() - i,
    {
        let ghost segs: Seq<Seq<char>> = ident@.path.skip(i as int);
        if i == ident.path.len() {
            if self.find_entry(&ident.name).is_some() {
                out.push(ident.clone());
            }
        } else {
            proof {
                assert(segs[0] == ident@.path[i as int]);
                assert(segs.drop_first() =~= ident@.path.skip(i + 1 as int));
            }
            let inext: usize = i + 1;
            match self.find_entry(&ident.path[i]) {
                Some(j) => match &self.names[j].1.kind {
                    DeclKind::Module(sub) => sub.lookup_at(ident, inext, out),
                    DeclKind::LayeredModules(stack) => {
                        let ghost segs2: Seq<Seq<char>> = ident@.path.skip(i + 1 as int);
                        let ghost base: nat = out@.len();
                        proof {
                            assert(stack@.skip(0) =~= stack@);
                        }
                        let mut k: usize = 0;
                        while k < stack.len()
                            invariant
                                k <= stack@.len(),
                                inext == i + 1,
                                inext <= ident.path@.len(),
                                segs2 == ident@.path.skip(inext as int),
                                out@.len() + layers_count(stack@.skip(k as int), segs2, ident@.name)
                                    == base + layers_count(stack@, segs2, ident@.name),
                                base == old(out)@.len(),
                                base <= out@.len(),
                                forall|j: int| 0 <= j < old(out)@.len()
                                    ==> #[trigger] out@[j] == old(out)@[j],
                                forall|j: int| old(out)@.len() <= j < out@.len()
                                    ==> #[trigger] out@[j]@ == ident@,
                            decreases stack@.len() - k,
                        {
                            proof {
                                assert(stack@.skip(k as int)[0] == stack@[k as int]);
                                assert(stack@.skip(k as int).drop_first() =~= stack@.skip(
                                    k + 1 as int,
                                ));
                            }
                            stack[k].lookup_at(ident, inext, out);
                            k += 1;
                        }
                        proof {
                            assert(stack@.skip(stack@.len() as int) =~= Seq::<Module>::empty());
                        }
                    },
                    _ => {},
                },
                None => {},
            }
        }
    }
}

/// The column list kept its entries in place and only gained appended
/// columns carrying the given name.
pub open spec fn cols_grew(c0: Seq<RelationColumn>, c1: Seq<RelationColumn>, n: Seq<char>) -> bool {
    &&& c0.is_prefix_of(c1)
    &&& forall|i: int| c0.len() <= i < c1.len() ==> rc_named(#[trigger] c1[i], n)
}

/// How a declaration may change while one column is inferred: it keeps
/// its value, or it is a namespace whose contents changed only through
/// deeper declarations, or it is a table declaration that kept its
/// defining expression and only gained appended columns of the inferred
/// name.
pub open spec fn decl_kept(d0: Option<Decl>, d1: Option<Decl>, n: Seq<char>) -> bool {
    match (d0, d1) {
        (None, None) => true,
        (Some(a), Some(b)) => a == b || (a.declared_at == b.declared_at && match (a.kind, b.kind) {
            (DeclKind::Module(_), DeclKind::Module(_)) => true,
            (DeclKind::TableDecl(t0), DeclKind::TableDecl(t1)) => t0.expr == t1.expr && cols_grew(
                t0.columns@,
                t1.columns@,
                n,
            ),
            _ => false,
        }),
        _ => false,
    }
}

/// Column growth composes.
pub proof fn lemma_cols_grew_trans(
    a: Seq<RelationColumn>,
    b: Seq<RelationColumn>,
    c: Seq<RelationColumn>,
    n: Seq<char>,
)
    requires
        cols_grew(a, b, n),
        cols_grew(b, c, n),
    ensures
        cols_grew(a, c, n),
{
    assert(a =~= c.subrange(0, a.len() as int)) by {
        assert forall|i: int| 0 <= i < a.len() implies a[i] == c[i] by {
            assert(a[i] == b[i]);
            assert(b[i] == c[i]);
        }
    }
    assert forall|i: int| a.len() <= i < c.len() implies rc_named(#[trigger] c[i], n) by {
        if i < b.len() {
            assert(c[i] == b[i]);
            assert(rc_named(b[i], n));
        }
    }
}

/// Declaration evolution composes: two kept steps make a kept step.
pub proof fn lemma_decl_kept_trans(
    d0: Option<Decl>,
    d1: Option<Decl>,
    d2: Option<Decl>,
    n: Seq<char>,
)
    requires
        decl_kept(d0, d1, n),
        decl_kept(d1, d2, n),
    ensures
        decl_kept(d0, d2, n),
{
    if d0 is Some && d1 is Some && d2 is Some {
        let a = d0->Some_0;
        let b = d1->Some_0;
        let c = d2->Some_0;
        if a.kind is TableDecl && b.kind is TableDecl && c.kind is TableDecl {
            lemma_cols_grew_trans(
                a.kind->TableDecl_0.columns@,
                b.kind->TableDecl_0.columns@,
                c.kind->TableDecl_0.columns@,
                n,
            );
        }
    }
}

/// A declaration a get reaches makes the lookup count at its pair at
/// least one.
pub proof fn lemma_get_some_count(m: Module, segs: Seq<Seq<char>>, name: Seq<char>)
    requires
        get_spec(m, segs, name) is Some,
    ensures
        lookup_count(m, segs, name) >= 1,
    decreases segs.len(),
{
    if segs.len() > 0 {
        match find_in(m.names@, segs[0]) {
            Some(d) => match d.kind {
                DeclKind::Module(sub) => {
                    lemma_get_some_count(sub, segs.drop_first(), name);
                },
                _ => {},
            },
            None => {},
        }
    }
}

/// Along an unblocked path, every strict prefix pair reaches nothing or a
/// plain namespace.
pub proof fn lemma_unblocked_prefix_kinds(
    m: Module,
    segs: Seq<Seq<char>>,
    p: Seq<Seq<char>>,
    n2: Seq<char>,
)
    requires
        !blocked(m, segs),
        p.push(n2).is_prefix_of(segs),
    ensures
        match get_spec(m, p, n2) {
            Some(d) => d.kind is Module,
            None => true,
        },
    decreases p.len(),
{
    let q = p.push(n2);
    assert(q[q.len() - 1] == n2);
    if p.len() == 0 {
        assert(n2 == q[0]);
        assert(q[0] == segs.subrange(0, q.len() as int)[0]);
        assert(n2 == segs[0]);
    } else {
        assert(p[0] == q[0]);
        assert(q[0] == segs.subrange(0, q.len() as int)[0]);
        assert(p[0] == segs[0]);
        match find_in(m.names@, segs[0]) {
            Some(d) => match d.kind {
                DeclKind::Module(sub) => {
                    lemma_prefix_uncons(q, segs);
                    assert(q.drop_first() =~= p.drop_first().push(n2));
                    lemma_unblocked_prefix_kinds(sub, segs.drop_first(), p.drop_first(), n2);
                },
                _ => {},
            },
            None => {},
        }
    }
}

/// A chain that runs on past a declaration that is not a namespace — or
/// past an unbound name — reaches nothing.
pub proof fn lemma_nonmodule_blocks_ext(
    m: Module,
    segs: Seq<Seq<char>>,
    name: Seq<char>,
    p: Seq<Seq<char>>,
    n2: Seq<char>,
)
    requires
        segs.push(name).is_prefix_of(p.push(n2)),
        segs.push(name) != p.push(n2),
        match get_spec(m, segs, name) {
            Some(d) => !(d.kind is Module),
            None => true,
        },
    ensures
        get_spec(m, p, n2) is None,
    decreases segs.len(),
{
    let full = segs.push(name);
    let q = p.push(n2);
    assert(q.len() > full.len()) by {
        if q.len() == full.len() {
            assert(full =~= q);
        }
    }
    assert(p.len() >= 1);
    assert(p[0] == q[0]);
    assert(q[0] == q.subrange(0, full.len() as int)[0]) by {
        assert(full.len() >= 1);
    }
    assert(full[0] == q.subrange(0, full.len() as int)[0]) by {
        assert(full =~= q.subrange(0, full.len() as int));
    }
    if segs.len() == 0 {
        assert(p[0] == name);
        match find_in(m.names@, p[0]) {
            Some(d) => {
                assert(get_spec(m, segs, name) == Some(d));
                assert(!(d.kind is Module));
            },
            None => {},
        }
    } else {
        assert(p[0] == segs[0]);
        match find_in(m.names@, segs[0]) {
            Some(d) => match d.kind {
                DeclKind::Module(sub) => {
                    lemma_prefix_uncons(full, q);
                    assert(full.drop_first() =~= segs.drop_first().push(name));
                    assert(q.drop_first() =~= p.drop_first().push(n2));
                    assert(segs.drop_first().push(name) != p.drop_first().push(n2)) by {
                        if segs.drop_first().push(name) == p.drop_first().push(n2) {
                            assert(full =~= q);
                        }
                    }
                    lemma_nonmodule_blocks_ext(
                        sub,
                        segs.drop_first(),
                        name,
                        p.drop_first(),
                        n2,
                    );
                },
                _ => {},
            },
            None => {},
        }
    }
}

/// Whether the path and name reach a table declaration.
pub open spec fn table_at(m: Module, segs: Seq<Seq<char>>, name: Seq<char>) -> bool {
    match get_spec(m, segs, name) {
        Some(d) => d.kind is TableDecl,
        None => false,
    }
}

/// The declared columns of the table the path and name reach.
pub open spec fn table_cols(m: Module, segs: Seq<Seq<char>>, name: Seq<char>) -> Seq<
    RelationColumn,
> {
    match get_spec(m, segs, name) {
        Some(d) => match d.kind {
            DeclKind::TableDecl(td) => td.columns@,
            _ => Seq::empty(),
        },
        None => Seq::empty(),
    }
}

/// The defining expression of the table the path and name reach.
pub open spec fn table_expr(m: Module, segs: Seq<Seq<char>>, name: Seq<char>) -> Option<Box<Expr>> {
    match get_spec(m, segs, name) {
        Some(d) => match d.kind {
            DeclKind::TableDecl(td) => td.expr,
            _ => None,
        },
        None => None,
    }
}

/// A one-segment path is a prefix exactly of the sequences starting with
/// its segment.
pub proof fn lemma_prefix_single(x: Seq<char>, s: Seq<Seq<char>>)
    ensures
        seq![x].is_prefix_of(s) <==> (s.len() >= 1 && s[0] == x),
{
    if s.len() >= 1 && s[0] == x {
        assert(seq![x] =~= s.subrange(0, 1));
    }
    if seq![x].is_prefix_of(s) {
        assert(seq![x][0] == x);
        assert(s.subrange(0, 1)[0] == s[0]);
    }
}

/// Prefix order between sequences with equal heads is decided by the
/// tails.
pub proof fn lemma_prefix_uncons(a: Seq<Seq<char>>, b: Seq<Seq<char>>)
    requires
        a.len() >= 1,
        b.len() >= 1,
        a[0] == b[0],
    ensures
        a.is_prefix_of(b) <==> a.drop_first().is_prefix_of(b.drop_first()),
{
    if a.is_prefix_of(b) {
        assert(a.drop_first() =~= b.drop_first().subrange(0, a.len() - 1));
    } else if a.drop_first().is_prefix_of(b.drop_first()) {
        assert forall|t: int| 0 <= t < a.len() implies a[t] == b.subrange(0, a.len() as int)[t] by {
            if t > 0 {
                assert(a[t] == a.drop_first()[t - 1]);
                assert(a.drop_first()[t - 1] == b.drop_first().subrange(0, a.len() - 1)[t - 1]);
                assert(b.drop_first()[t - 1] == b[t]);
            }
        }
        assert(a =~= b.subrange(0, a.len() as int));
    }
}

/// Along the chain of a declaration that a get reaches, every strict
/// prefix is bound to a plain namespace.
pub proof fn lemma_table_prefix_modules(
    m: Module,
    segs: Seq<Seq<char>>,
    name: Seq<char>,
    p: Seq<Seq<char>>,
    x: Seq<char>,
)
    requires
        get_spec(m, segs, name) is Some,
        p.push(x).is_prefix_of(segs.push(name)),
        p.push(x) != segs.push(name),
    ensures
        get_spec(m, p, x) matches Some(d) && d.kind is Module,
    decreases p.len(),
{
    let q = p.push(x);
    let full = segs.push(name);
    if q.len() == full.len() {
        assert(q =~= full);
        assert(false);
    }
    assert(q.len() <= segs.len());
    if p.len() == 0 {
        assert(x == q[0]);
        assert(q[0] == full.subrange(0, 1)[0]);
        assert(full[0] == segs[0]);
        assert(x == segs[0]);
    } else {
        assert(p[0] == q[0]);
        assert(q[0] == full.subrange(0, q.len() as int)[0]);
        assert(full[0] == segs[0]);
        assert(p[0] == segs[0]);
        let sub = match find_in(m.names@, segs[0]) {
            Some(d) => match d.kind {
                DeclKind::Module(s) => s,
                _ => arbitrary(),
            },
            None => arbitrary(),
        };
        lemma_prefix_uncons(q, full);
        assert(q.drop_first() =~= p.drop_first().push(x));
        assert(full.drop_first() =~= segs.drop_first().push(name));
        assert(p.drop_first().push(x) != segs.drop_first().push(name)) by {
            if p.drop_first().push(x) == segs.drop_first().push(name) {
                assert(q =~= full);
            }
        }
        lemma_table_prefix_modules(sub, segs.drop_first(), name, p.drop_first(), x);
    }
}

impl Module {
    /// Whether inserting along this path would hit a declaration that is
    /// not a plain namespace.
    fn blocked_at(&self, path: &Vec<String>, i: usize) -> (r: bool)
        requires
            i <= path@.len(),
        ensures
            r == blocked(*self, path.deep_view().skip(i as int)),
        decreases path@.len() - i,
    {
        let ghost segs: Seq<Seq<char>> = path.deep_view().skip(i as int);
        if i == path.len() {
            false
        } else {
            proof {
                assert(segs[0] == path.deep_view()[i as int]);
                assert(segs.drop_first() =~= path.deep_view().skip(i + 1 as int));
            }
            match self.find_entry(&path[i]) {
                Some(j) => match &self.names[j].1.kind {
                    DeclKind::Module(sub) => sub.blocked_at(path, i + 1),
                    _ => true,
                },
                None => false,
            }
        }
    }

    /// Insert the declaration under the ident's name, following the
    /// ident's path and creating missing intermediate namespaces; an
    /// existing binding of the name is overwritten (last write wins).
    /// Fails, leaving the tree untouched, exactly when a path segment is
    /// already bound to a declaration that is not a plain namespace.
    pub fn insert(&mut self, ident: &Ident, decl: Decl) -> (r: Result<(), ()>)
        ensures
            r is Ok ==> get_spec(*final(self), ident@.path, ident@.name) == Some(decl)
                && plain_path(*final(self), ident@.path),
            r is Err ==> *final(self) == *old(self),
            r is Ok <==> !blocked(*old(self), ident@.path),
            forall|p: Seq<Seq<char>>, n2: Seq<char>|
                !chains_overlap(#[trigger] p.push(n2), ident@.path.push(ident@.name))
                    ==> get_spec(*final(self), p, n2) == get_spec(*old(self), p, n2),
    {
        proof {
            assert(ident.path.deep_view().skip(0) =~= ident@.path);
        }
        if self.blocked_at(&ident.path, 0) {
            Err(())
        } else {
            self.insert_at(&ident.path, 0, &ident.name, decl);
            Ok(())
        }
    }

    fn insert_at(&mut self, path: &Vec<String>, i: usize, name: &String, decl: Decl)
        requires
            i <= path@.len(),
            !blocked(*old(self), path.deep_view().skip(i as int)),
        ensures
            get_spec(*final(self), path.deep_view().skip(i as int), name@) == Some(decl),
            plain_path(*final(self), path.deep_view().skip(i as int)),
            forall|p: Seq<Seq<char>>, n2: Seq<char>|
                !chains_overlap(
                    #[trigger] p.push(n2),
                    path.deep_view().skip(i as int).push(name@),
                ) ==> get_spec(*final(self), p, n2) == get_spec(*old(self), p, n2),
        decreases path@.len() - i,
    {
        let ghost segs: Seq<Seq<char>> = path.deep_view().skip(i as int);
        let ghost full: Seq<Seq<char>> = segs.push(name@);
        let ghost names0: Seq<(String, Decl)> = self.names@;
        if i == path.len() {
            match self.find_entry(name) {
                Some(j) => {
                    proof {
                        lemma_find_idx(names0, name@);
                    }
                    let (key, _old_decl) = self.names.remove(j);
                    self.names.insert(j, (key, decl));
                    proof {
                        let names1 = self.names@;
                        assert(names1 =~= names0.update(j as int, names1[j as int]));
                        assert(names1[j as int].1 == decl);
                        assert forall|t: int| 0 <= t < names0.len() implies #[trigger] names1[t].0@
                            == names0[t].0@ by {}
                        lemma_find_idx_same_keys(names0, names1, name@);
                        assert(find_in(names1, name@) == Some(decl));
                        assert forall|p: Seq<Seq<char>>, n2: Seq<char>|
                            !chains_overlap(#[trigger] p.push(n2), full) implies get_spec(
                            *self,
                            p,
                            n2,
                        ) == get_spec(*old(self), p, n2) by {
                            lemma_find_idx_same_keys(names0, names1, n2);
                            lemma_find_idx(names1, n2);
                            if p.len() == 0 {
                                lemma_prefix_single(n2, full);
                            } else {
                                lemma_prefix_single(p[0], full);
                                assert(p.push(n2)[0] == p[0]);
                                if full.is_prefix_of(p.push(n2)) {
                                } else {
                                    assert(p[0] != name@);
                                    lemma_find_idx_same_keys(names0, names1, p[0]);
                                    lemma_find_idx(names1, p[0]);
                                }
                            }
                        }
                    }
                },
                None => {
                    proof {
                        lemma_find_idx(names0, name@);
                    }
                    self.names.push((name.clone(), decl));
                    proof {
                        let names1 = self.names@;
                        lemma_find_push(names0, names1[names0.len() as int], name@);
                        assert(find_in(names1, name@) == Some(decl));
                        assert forall|p: Seq<Seq<char>>, n2: Seq<char>|
                            !chains_overlap(#[trigger] p.push(n2), full) implies get_spec(
                            *self,
                            p,
                            n2,
                        ) == get_spec(*old(self), p, n2) by {
                            if p.len() == 0 {
                                lemma_prefix_single(n2, full);
                                assert(n2 != name@);
                                lemma_find_push_other(names0, names1[names0.len() as int], n2);
                                lemma_find_idx(names0, n2);
                            } else {
                                lemma_prefix_single(p[0], full);
                                assert(p.push(n2)[0] == p[0]);
                                if !full.is_prefix_of(p.push(n2)) {
                                    assert(p[0] != name@);
                                    lemma_find_push_other(
                                        names0,
                                        names1[names0.len() as int],
                                        p[0],
                                    );
                                    lemma_find_idx(names0, p[0]);
                                }
                            }
                        }
                    }
                },
            }
        } else {
            proof {
                assert(segs[0] == path.deep_view()[i as int]);
                assert(segs.drop_first() =~= path.deep_view().skip(i + 1 as int));
            }
            match self.find_entry(&path[i]) {
                Some(j) => {
                    proof {
                        lemma_find_idx(names0, segs[0]);
                    }
                    let (key, dec) = self.names.remove(j);
                    let Decl { declared_at, kind } = dec;
                    let mut sub = match kind {
                        DeclKind::Module(s) => s,
                        _ => {
                            proof {
                                assert(false);
                            }
                            Module::new()
                        },
                    };
                    let ghost sub0: Module = sub;
                    sub.insert_at(path, i + 1, name, decl);
                    let ghost sub1: Module = sub;
                    self.names.insert(j, (key, Decl { declared_at, kind: DeclKind::Module(sub) }));
                    proof {
                        let names1 = self.names@;
                        let ghost full2 = segs.drop_first().push(name@);
                        assert(names1 =~= names0.update(j as int, names1[j as int]));
                        assert forall|t: int| 0 <= t < names0.len() implies #[trigger] names1[t].0@
                            == names0[t].0@ by {}
                        lemma_find_idx_same_keys(names0, names1, segs[0]);
                        assert(find_idx(names1, segs[0]) == j as int);
                        assert(names1[j as int].1.kind == DeclKind::Module(sub1));
                        assert(get_spec(*self, segs, name@) == get_spec(
                            sub1,
                            segs.drop_first(),
                            name@,
                        ));
                        assert(full.drop_first() =~= full2);
                        assert forall|p: Seq<Seq<char>>, n2: Seq<char>|
                            !chains_overlap(#[trigger] p.push(n2), full) implies get_spec(
                            *self,
                            p,
                            n2,
                        ) == get_spec(*old(self), p, n2) by {
                            lemma_find_idx_same_keys(names0, names1, n2);
                            lemma_find_idx(names1, n2);
                            if p.len() == 0 {
                                lemma_prefix_single(n2, full);
                            } else {
                                lemma_find_idx_same_keys(names0, names1, p[0]);
                                lemma_find_idx(names1, p[0]);
                                if find_idx(names0, p[0]) == j as int {
                                    assert(p[0] == names0[j as int].0@);
                                    assert(p[0] == segs[0]);
                                    assert(p.push(n2)[0] == p[0]);
                                    assert(full[0] == segs[0]);
                                    lemma_prefix_uncons(p.push(n2), full);
                                    lemma_prefix_uncons(full, p.push(n2));
                                    assert(p.push(n2).drop_first() =~= p.drop_first().push(n2));
                                    assert(!chains_overlap(p.drop_first().push(n2), full2));
                                    assert(get_spec(sub1, p.drop_first(), n2) == get_spec(
                                        sub0,
                                        p.drop_first(),
                                        n2,
                                    ));
                                    assert(get_spec(*self, p, n2) == get_spec(
                                        sub1,
                                        p.drop_first(),
                                        n2,
                                    ));
                                    assert(get_spec(*old(self), p, n2) == get_spec(
                                        sub0,
                                        p.drop_first(),
                                        n2,
                                    ));
                                }
                            }
                        }
                    }
                },
                None => {
                    proof {
                        lemma_find_idx(names0, segs[0]);
                    }
                    let mut sub = Module::new();
                    proof {
                        assert(!blocked(sub, path.deep_view().skip(i + 1 as int)));
                    }
                    let ghost sub0: Module = sub;
                    sub.insert_at(path, i + 1, name, decl);
                    let ghost sub1: Module = sub;
                    self.names.push(
                        (path[i].clone(), Decl { declared_at: None, kind: DeclKind::Module(sub) }),
                    );
                    proof {
                        let names1 = self.names@;
                        let ghost full2 = segs.drop_first().push(name@);
                        lemma_find_push(names0, names1[names0.len() as int], segs[0]);
                        assert(find_idx(names1, segs[0]) == names0.len() as int);
                        assert(names1[names0.len() as int].1.kind == DeclKind::Module(sub1));
                        assert(get_spec(*self, segs, name@) == get_spec(
                            sub1,
                            segs.drop_first(),
                            name@,
                        ));
                        assert(full.drop_first() =~= full2);
                        assert forall|p: Seq<Seq<char>>, n2: Seq<char>|
                            !chains_overlap(#[trigger] p.push(n2), full) implies get_spec(
                            *self,
                            p,
                            n2,
                        ) == get_spec(*old(self), p, n2) by {
                            if p.len() == 0 {
                                lemma_prefix_single(n2, full);
                                assert(n2 != segs[0]);
                                lemma_find_push_other(names0, names1[names0.len() as int], n2);
                                lemma_find_idx(names0, n2);
                            } else {
                                assert(p.push(n2)[0] == p[0]);
                                if p[0] == segs[0] {
                                    lemma_find_push(names0, names1[names0.len() as int], p[0]);
                                    assert(full[0] == segs[0]);
                                    lemma_prefix_uncons(p.push(n2), full);
                                    lemma_prefix_uncons(full, p.push(n2));
                                    assert(p.push(n2).drop_first() =~= p.drop_first().push(n2));
                                    assert(!chains_overlap(p.drop_first().push(n2), full2));
                                    assert(get_spec(sub1, p.drop_first(), n2) == get_spec(
                                        sub0,
                                        p.drop_first(),
                                        n2,
                                    ));
                                    assert(get_spec(sub0, p.drop_first(), n2) is None);
                                    assert(get_spec(*self, p, n2) == get_spec(
                                        sub1,
                                        p.drop_first(),
                                        n2,
                                    ));
                                    assert(get_spec(*old(self), p, n2) is None);
                                } else {
                                    lemma_find_push_other(
                                        names0,
                                        names1[names0.len() as int],
                                        p[0],
                                    );
                                    lemma_find_idx(names0, p[0]);
                                }
                            }
                        }
                    }
                },
            }
        }
    }

    /// Append a column to the table declaration the ident reaches. Every
    /// declaration outside the ident's own chain keeps its value, and no
    /// lookup finds more or fewer candidates anywhere in the tree.
    pub fn push_table_column(&mut self, ident: &Ident, col: RelationColumn)
        requires
            table_at(*old(self), ident@.path, ident@.name),
        ensures
            table_at(*final(self), ident@.path, ident@.name),
            table_cols(*final(self), ident@.path, ident@.name) == table_cols(
                *old(self),
                ident@.path,
                ident@.name,
            ).push(col),
            table_expr(*final(self), ident@.path, ident@.name) == table_expr(
                *old(self),
                ident@.path,
                ident@.name,
            ),
            forall|p: Seq<Seq<char>>, n2: Seq<char>|
                !(#[trigger] p.push(n2)).is_prefix_of(ident@.path.push(ident@.name))
                    ==> get_spec(*final(self), p, n2) == get_spec(*old(self), p, n2),
            forall|p: Seq<Seq<char>>, n2: Seq<char>|
                #[trigger] lookup_count(*final(self), p, n2) == lookup_count(*old(self), p, n2),
            forall|p: Seq<Seq<char>>, n2: Seq<char>| #[trigger] table_at(*final(self), p, n2)
                == table_at(*old(self), p, n2),
            forall|p: Seq<Seq<char>>, n2: Seq<char>| #[trigger] table_expr(*final(self), p, n2)
                == table_expr(*old(self), p, n2),
            forall|p: Seq<Seq<char>>, n2: Seq<char>| #[trigger] table_cols(*final(self), p, n2)
                == table_cols(*old(self), p, n2) || table_cols(*final(self), p, n2) == table_cols(
                *old(self),
                p,
                n2,
            ).push(col),
            forall|p: Seq<Seq<char>>, n2: Seq<char>, n3: Seq<char>| #[trigger] rc_named(col, n3)
                ==> decl_kept(
                #[trigger] get_spec(*old(self), p, n2),
                get_spec(*final(self), p, n2),
                n3,
            ),
    {
        proof {
            assert(ident.path.deep_view().skip(0) =~= ident@.path);
        }
        self.push_col_at(&ident.path, 0, &ident.name, col);
    }

    fn push_col_at(&mut self, path: &Vec<String>, i: usize, name: &String, col: RelationColumn)
        requires
            i <= path@.len(),
            table_at(*old(self), path.deep_view().skip(i as int), name@),
        ensures
            table_at(*final(self), path.deep_view().skip(i as int), name@),
            table_cols(*final(self), path.deep_view().skip(i as int), name@) == table_cols(
                *old(self),
                path.deep_view().skip(i as int),
                name@,
            ).push(col),
            table_expr(*final(self), path.deep_view().skip(i as int), name@) == table_expr(
                *old(self),
                path.deep_view().skip(i as int),
                name@,
            ),
            forall|p: Seq<Seq<char>>, n2: Seq<char>|
                !(#[trigger] p.push(n2)).is_prefix_of(
                    path.deep_view().skip(i as int).push(name@),
                ) ==> get_spec(*final(self), p, n2) == get_spec(*old(self), p, n2),
            forall|p: Seq<Seq<char>>, n2: Seq<char>|
                #[trigger] lookup_count(*final(self), p, n2) == lookup_count(*old(self), p, n2),
            forall|p: Seq<Seq<char>>, n2: Seq<char>| #[trigger] table_at(*final(self), p, n2)
                == table_at(*old(self), p, n2),
            forall|p: Seq<Seq<char>>, n2: Seq<char>| #[trigger] table_expr(*final(self), p, n2)
                == table_expr(*old(self), p, n2),
            forall|p: Seq<Seq<char>>, n2: Seq<char>| #[trigger] table_cols(*final(self), p, n2)
                == table_cols(*old(self), p, n2) || table_cols(*final(self), p, n2) == table_cols(
                *old(self),
                p,
                n2,
            ).push(col),
            forall|p: Seq<Seq<char>>, n2: Seq<char>, n3: Seq<char>| #[trigger] rc_named(col, n3)
                ==> decl_kept(
                #[trigger] get_spec(*old(self), p, n2),
                get_spec(*final(self), p, n2),
                n3,
            ),
        decreases path@.len() - i,
    {
        let ghost segs: Seq<Seq<char>> = path.deep_view().skip(i as int);
        let ghost full: Seq<Seq<char>> = segs.push(name@);
        let ghost names0: Seq<(String, Decl)> = self.names@;
        if i == path.len() {
            let j = match self.find_entry(name) {
                Some(j) => j,
                None => {
                    proof {
                        assert(false);
                    }
                    0
                },
            };
            proof {
                lemma_find_idx(names0, name@);
            }
            let (key, dec) = self.names.remove(j);
            let Decl { declared_at, kind } = dec;
            let mut td = match kind {
                DeclKind::TableDecl(td) => td,
                _ => {
                    proof {
                        assert(false);
                    }
                    TableDecl { columns: Vec::new(), expr: None }
                },
            };
            td.columns.push(col);
            self.names.insert(j, (key, Decl { declared_at, kind: DeclKind::TableDecl(td) }));
            proof {
                let names1 = self.names@;
                assert(names1 =~= names0.update(j as int, names1[j as int]));
                assert forall|t: int| 0 <= t < names0.len() implies #[trigger] names1[t].0@
                    == names0[t].0@ by {}
                assert forall|t: int| 0 <= t < names0.len() && t != j implies #[trigger] names1[t]
                    == names0[t] by {}
                lemma_find_idx_same_keys(names0, names1, name@);
                assert(find_idx(names1, name@) == j as int);
                assert(get_spec(*self, segs, name@) == Some(names1[j as int].1));
                assert(get_spec(*old(self), segs, name@) == Some(names0[j as int].1));
                assert(table_cols(*self, segs, name@) =~= table_cols(
                    *old(self),
                    segs,
                    name@,
                ).push(col));
                assert forall|p: Seq<Seq<char>>, n2: Seq<char>|
                    !(#[trigger] p.push(n2)).is_prefix_of(full) implies get_spec(*self, p, n2)
                    == get_spec(*old(self), p, n2) by {
                    lemma_find_idx_same_keys(names0, names1, n2);
                    if p.len() == 0 {
                        lemma_prefix_single(n2, full);
                        lemma_find_idx(names1, n2);
                    } else {
                        lemma_find_idx_same_keys(names0, names1, p[0]);
                        lemma_find_idx(names1, p[0]);
                    }
                }
                assert forall|p: Seq<Seq<char>>, n2: Seq<char>| #[trigger] lookup_count(
                    *self,
                    p,
                    n2,
                ) == lookup_count(*old(self), p, n2) by {
                    lemma_find_idx_same_keys(names0, names1, n2);
                    if p.len() > 0 {
                        lemma_find_idx_same_keys(names0, names1, p[0]);
                        lemma_find_idx(names1, p[0]);
                    }
                }
                assert forall|p: Seq<Seq<char>>, n2: Seq<char>| #[trigger] table_at(*self, p, n2)
                    == table_at(*old(self), p, n2) by {
                    lemma_find_idx_same_keys(names0, names1, n2);
                    if p.len() > 0 {
                        lemma_find_idx_same_keys(names0, names1, p[0]);
                        lemma_find_idx(names1, p[0]);
                    } else {
                        lemma_find_idx(names1, n2);
                    }
                }
                assert forall|p: Seq<Seq<char>>, n2: Seq<char>| #[trigger] table_expr(*self, p, n2)
                    == table_expr(*old(self), p, n2) by {
                    lemma_find_idx_same_keys(names0, names1, n2);
                    if p.len() > 0 {
                        lemma_find_idx_same_keys(names0, names1, p[0]);
                        lemma_find_idx(names1, p[0]);
                    } else {
                        lemma_find_idx(names1, n2);
                    }
                }
                assert forall|p: Seq<Seq<char>>, n2: Seq<char>| #[trigger] table_cols(*self, p, n2)
                    == table_cols(*old(self), p, n2) || table_cols(*self, p, n2) == table_cols(
                    *old(self),
                    p,
                    n2,
                ).push(col) by {
                    lemma_find_idx_same_keys(names0, names1, n2);
                    if p.len() > 0 {
                        lemma_find_idx_same_keys(names0, names1, p[0]);
                        lemma_find_idx(names1, p[0]);
                    } else {
                        lemma_find_idx(names1, n2);
                    }
                }
                assert forall|p: Seq<Seq<char>>, n2: Seq<char>, n3: Seq<char>| #[trigger] rc_named(
                    col,
                    n3,
                ) implies decl_kept(
                    #[trigger] get_spec(*old(self), p, n2),
                    get_spec(*self, p, n2),
                    n3,
                ) by {
                    lemma_find_idx_same_keys(names0, names1, n2);
                    if p.len() > 0 {
                        lemma_find_idx_same_keys(names0, names1, p[0]);
                        lemma_find_idx(names1, p[0]);
                    } else {
                        lemma_find_idx(names1, n2);
                    }
                }
            }
        } else {
            proof {
                assert(segs[0] == path.deep_view()[i as int]);
                assert(segs.drop_first() =~= path.deep_view().skip(i + 1 as int));
            }
            let j = match self.find_entry(&path[i]) {
                Some(j) => j,
                None => {
                    proof {
                        assert(false);
                    }
                    0
                },
            };
            proof {
                lemma_find_idx(names0, path@[i as int]@);
            }
            let (key, dec) = self.names.remove(j);
            let Decl { declared_at, kind } = dec;
            let mut sub = match kind {
                DeclKind::Module(s) => s,
                _ => {
                    proof {
                        assert(false);
                    }
                    Module::new()
                },
            };
            let ghost sub0: Module = sub;
            sub.push_col_at(path, i + 1, name, col);
            let ghost sub1: Module = sub;
            self.names.insert(j, (key, Decl { declared_at, kind: DeclKind::Module(sub) }));
            proof {
                let names1 = self.names@;
                let ghost segs2 = segs.drop_first();
                let ghost full2 = segs2.push(name@);
                assert(names1 =~= names0.update(j as int, names1[j as int]));
                assert(names1[j as int].1.kind == DeclKind::Module(sub1));
                assert forall|t: int| 0 <= t < names0.len() implies #[trigger] names1[t].0@
                    == names0[t].0@ by {}
                assert forall|t: int| 0 <= t < names0.len() && t != j implies #[trigger] names1[t]
                    == names0[t] by {}
                lemma_find_idx_same_keys(names0, names1, segs[0]);
                assert(get_spec(*self, segs, name@) == get_spec(sub1, segs2, name@));
                assert(get_spec(*old(self), segs, name@) == get_spec(sub0, segs2, name@));
                assert forall|p: Seq<Seq<char>>, n2: Seq<char>|
                    !(#[trigger] p.push(n2)).is_prefix_of(full) implies get_spec(*self, p, n2)
                    == get_spec(*old(self), p, n2) by {
                    lemma_find_idx_same_keys(names0, names1, n2);
                    if p.len() == 0 {
                        lemma_prefix_single(n2, full);
                        lemma_find_idx(names1, n2);
                    } else {
                        lemma_find_idx_same_keys(names0, names1, p[0]);
                        lemma_find_idx(names1, p[0]);
                        if find_idx(names0, p[0]) == j as int {
                            assert(p[0] == names0[j as int].0@);
                            assert(p.push(n2)[0] == p[0]);
                            assert(full[0] == segs[0]);
                            lemma_prefix_uncons(p.push(n2), full);
                            assert(p.push(n2).drop_first() =~= p.drop_first().push(n2));
                            assert(full.drop_first() =~= full2);
                            assert(get_spec(sub1, p.drop_first(), n2) == get_spec(
                                sub0,
                                p.drop_first(),
                                n2,
                            ));
                            assert(get_spec(*self, p, n2) == get_spec(sub1, p.drop_first(), n2));
                            assert(get_spec(*old(self), p, n2) == get_spec(
                                sub0,
                                p.drop_first(),
                                n2,
                            ));
                        }
                    }
                }
                assert forall|p: Seq<Seq<char>>, n2: Seq<char>| #[trigger] lookup_count(
                    *self,
                    p,
                    n2,
                ) == lookup_count(*old(self), p, n2) by {
                    lemma_find_idx_same_keys(names0, names1, n2);
                    if p.len() > 0 {
                        lemma_find_idx_same_keys(names0, names1, p[0]);
                        lemma_find_idx(names1, p[0]);
                        if find_idx(names0, p[0]) == j as int {
                            assert(lookup_count(*self, p, n2) == lookup_count(
                                sub1,
                                p.drop_first(),
                                n2,
                            ));
                            assert(lookup_count(*old(self), p, n2) == lookup_count(
                                sub0,
                                p.drop_first(),
                                n2,
                            ));
                        }
                    }
                }
                assert forall|p: Seq<Seq<char>>, n2: Seq<char>| #[trigger] table_at(*self, p, n2)
                    == table_at(*old(self), p, n2) by {
                    lemma_find_idx_same_keys(names0, names1, n2);
                    if p.len() == 0 {
                        lemma_find_idx(names1, n2);
                    } else {
                        lemma_find_idx_same_keys(names0, names1, p[0]);
                        lemma_find_idx(names1, p[0]);
                        if find_idx(names0, p[0]) == j as int {
                            assert(get_spec(*self, p, n2) == get_spec(sub1, p.drop_first(), n2));
                            assert(get_spec(*old(self), p, n2) == get_spec(
                                sub0,
                                p.drop_first(),
                                n2,
                            ));
                            assert(table_at(sub1, p.drop_first(), n2) == table_at(
                                sub0,
                                p.drop_first(),
                                n2,
                            ));
                            assert(table_expr(sub1, p.drop_first(), n2) == table_expr(
                                sub0,
                                p.drop_first(),
                                n2,
                            ));
                            assert(table_cols(sub1, p.drop_first(), n2) == table_cols(
                                sub0,
                                p.drop_first(),
                                n2,
                            ) || table_cols(sub1, p.drop_first(), n2) == table_cols(
                                sub0,
                                p.drop_first(),
                                n2,
                            ).push(col));
                        }
                    }
                }
                assert forall|p: Seq<Seq<char>>, n2: Seq<char>| #[trigger] table_expr(*self, p, n2)
                    == table_expr(*old(self), p, n2) by {
                    lemma_find_idx_same_keys(names0, names1, n2);
                    if p.len() == 0 {
                        lemma_find_idx(names1, n2);
                    } else {
                        lemma_find_idx_same_keys(names0, names1, p[0]);
                        lemma_find_idx(names1, p[0]);
                        if find_idx(names0, p[0]) == j as int {
                            assert(get_spec(*self, p, n2) == get_spec(sub1, p.drop_first(), n2));
                            assert(get_spec(*old(self), p, n2) == get_spec(
                                sub0,
                                p.drop_first(),
                                n2,
                            ));
                            assert(table_at(sub1, p.drop_first(), n2) == table_at(
                                sub0,
                                p.drop_first(),
                                n2,
                            ));
                            assert(table_expr(sub1, p.drop_first(), n2) == table_expr(
                                sub0,
                                p.drop_first(),
                                n2,
                            ));
                            assert(table_cols(sub1, p.drop_first(), n2) == table_cols(
                                sub0,
                                p.drop_first(),
                                n2,
                            ) || table_cols(sub1, p.drop_first(), n2) == table_cols(
                                sub0,
                                p.drop_first(),
                                n2,
                            ).push(col));
                        }
                    }
                }
                assert forall|p: Seq<Seq<char>>, n2: Seq<char>| #[trigger] table_cols(*self, p, n2)
                    == table_cols(*old(self), p, n2) || table_cols(*self, p, n2) == table_cols(
                    *old(self),
                    p,
                    n2,
                ).push(col) by {
                    lemma_find_idx_same_keys(names0, names1, n2);
                    if p.len() == 0 {
                        lemma_find_idx(names1, n2);
                    } else {
                        lemma_find_idx_same_keys(names0, names1, p[0]);
                        lemma_find_idx(names1, p[0]);
                        if find_idx(names0, p[0]) == j as int {
                            assert(get_spec(*self, p, n2) == get_spec(sub1, p.drop_first(), n2));
                            assert(get_spec(*old(self), p, n2) == get_spec(
                                sub0,
                                p.drop_first(),
                                n2,
                            ));
                            assert(table_at(sub1, p.drop_first(), n2) == table_at(
                                sub0,
                                p.drop_first(),
                                n2,
                            ));
                            assert(table_expr(sub1, p.drop_first(), n2) == table_expr(
                                sub0,
                                p.drop_first(),
                                n2,
                            ));
                            assert(table_cols(sub1, p.drop_first(), n2) == table_cols(
                                sub0,
                                p.drop_first(),
                                n2,
                            ) || table_cols(sub1, p.drop_first(), n2) == table_cols(
                                sub0,
                                p.drop_first(),
                                n2,
                            ).push(col));
                        }
                    }
                }
                assert forall|p: Seq<Seq<char>>, n2: Seq<char>, n3: Seq<char>| #[trigger] rc_named(
                    col,
                    n3,
                ) implies decl_kept(
                    #[trigger] get_spec(*old(self), p, n2),
                    get_spec(*self, p, n2),
                    n3,
                ) by {
                    lemma_find_idx_same_keys(names0, names1, n2);
                    if p.len() == 0 {
                        lemma_find_idx(names1, n2);
                    } else {
                        lemma_find_idx_same_keys(names0, names1, p[0]);
                        lemma_find_idx(names1, p[0]);
                        if find_idx(names0, p[0]) == j as int {
                            assert(get_spec(*self, p, n2) == get_spec(sub1, p.drop_first(), n2));
                            assert(get_spec(*old(self), p, n2) == get_spec(
                                sub0,
                                p.drop_first(),
                                n2,
                            ));
                            assert(decl_kept(
                                get_spec(sub0, p.drop_first(), n2),
                                get_spec(sub1, p.drop_first(), n2),
                                n3,
                            ));
                        }
                    }
                }
            }
        }
    }
}

/// Two trees that answer every table lookup alike decide every inference
/// walk alike.
pub proof fn lemma_same_tables_infer_ok(
    m1: Module,
    m2: Module,
    tm: crate::ident::IdentModel,
    col: Seq<char>,
    granted: Set<crate::ident::IdentModel>,
    fuel: nat,
)
    requires
        forall|p: Seq<Seq<char>>, n2: Seq<char>| #[trigger] table_at(m1, p, n2) == table_at(
            m2,
            p,
            n2,
        ),
        forall|p: Seq<Seq<char>>, n2: Seq<char>| #[trigger] table_expr(m1, p, n2) == table_expr(
            m2,
            p,
            n2,
        ),
        forall|p: Seq<Seq<char>>, n2: Seq<char>| #[trigger] table_cols(m1, p, n2) == table_cols(
            m2,
            p,
            n2,
        ),
    ensures
        crate::context::infer_ok_from(m1, tm, col, granted, fuel) == crate::context::infer_ok_from(
            m2,
            tm,
            col,
            granted,
            fuel,
        ),
    decreases fuel,
{
    if fuel > 0 && table_at(m1, tm.path, tm.name) {
        assert(crate::context::frame_of_table(m1, tm) == crate::context::frame_of_table(m2, tm));
        match crate::context::frame_of_table(m1, tm) {
            Some(f) => {
                let ws = crate::context::wc_names(f.columns);
                if ws.len() == 1 {
                    let ii = crate::frame::input_idx(f.inputs, ws[0]);
                    if ii >= 0 {
                        match f.inputs[ii].table {
                            Some(u) => {
                                lemma_same_tables_infer_ok(
                                    m1,
                                    m2,
                                    u,
                                    col,
                                    granted.insert(tm),
                                    (fuel - 1) as nat,
                                );
                            },
                            None => {},
                        }
                    }
                }
            },
            None => {},
        }
    }
}

/// Binding an inert declaration — neither a table nor a namespace — under
/// a previously unbound name changes no table lookup anywhere.
pub proof fn lemma_inert_insert_preserves_tables(
    m0: Module,
    m1: Module,
    path: Seq<Seq<char>>,
    name: Seq<char>,
)
    requires
        lookup_count(m0, path, name) == 0,
        !blocked(m0, path),
        plain_path(m1, path),
        match get_spec(m1, path, name) {
            Some(d) => !(d.kind is Module) && !(d.kind is TableDecl),
            None => false,
        },
        forall|p: Seq<Seq<char>>, n2: Seq<char>|
            !chains_overlap(#[trigger] p.push(n2), path.push(name)) ==> get_spec(m1, p, n2)
                == get_spec(m0, p, n2),
    ensures
        forall|p: Seq<Seq<char>>, n2: Seq<char>| #[trigger] table_at(m1, p, n2) == table_at(
            m0,
            p,
            n2,
        ),
        forall|p: Seq<Seq<char>>, n2: Seq<char>| #[trigger] table_expr(m1, p, n2) == table_expr(
            m0,
            p,
            n2,
        ),
        forall|p: Seq<Seq<char>>, n2: Seq<char>| #[trigger] table_cols(m1, p, n2) == table_cols(
            m0,
            p,
            n2,
        ),
{
    assert forall|p: Seq<Seq<char>>, n2: Seq<char>| #[trigger] table_at(m1, p, n2) == table_at(
        m0,
        p,
        n2,
    ) by {
        lemma_inert_insert_at_pair(m0, m1, path, name, p, n2);
    }
    assert forall|p: Seq<Seq<char>>, n2: Seq<char>| #[trigger] table_expr(m1, p, n2) == table_expr(
        m0,
        p,
        n2,
    ) by {
        lemma_inert_insert_at_pair(m0, m1, path, name, p, n2);
    }
    assert forall|p: Seq<Seq<char>>, n2: Seq<char>| #[trigger] table_cols(m1, p, n2) == table_cols(
        m0,
        p,
        n2,
    ) by {
        lemma_inert_insert_at_pair(m0, m1, path, name, p, n2);
    }
}

/// One query pair of the statement above.
proof fn lemma_inert_insert_at_pair(
    m0: Module,
    m1: Module,
    path: Seq<Seq<char>>,
    name: Seq<char>,
    p: Seq<Seq<char>>,
    n2: Seq<char>,
)
    requires
        lookup_count(m0, path, name) == 0,
        !blocked(m0, path),
        plain_path(m1, path),
        match get_spec(m1, path, name) {
            Some(d) => !(d.kind is Module) && !(d.kind is TableDecl),
            None => false,
        },
        forall|pq: Seq<Seq<char>>, nq: Seq<char>|
            !chains_overlap(#[trigger] pq.push(nq), path.push(name)) ==> get_spec(m1, pq, nq)
                == get_spec(m0, pq, nq),
    ensures
        table_at(m1, p, n2) == table_at(m0, p, n2),
        table_expr(m1, p, n2) == table_expr(m0, p, n2),
        table_cols(m1, p, n2) == table_cols(m0, p, n2),
{
    let full = path.push(name);
    let q = p.push(n2);
    assert(get_spec(m0, path, name) is None) by {
        if get_spec(m0, path, name) is Some {
            lemma_get_some_count(m0, path, name);
        }
    }
    if !chains_overlap(q, full) {
        assert(get_spec(m1, p, n2) == get_spec(m0, p, n2));
    } else if q.len() == full.len() {
        if q.is_prefix_of(full) {
            assert(full.subrange(0, q.len() as int) =~= full);
        } else {
            assert(q.subrange(0, full.len() as int) =~= q);
        }
        assert(q =~= full);
        assert(q.drop_last() =~= p);
        assert(full.drop_last() =~= path);
        assert(p == path);
        assert(n2 == q.last());
        assert(n2 == full.last());
    } else if q.len() < full.len() {
        assert(q.is_prefix_of(full));
        assert(q.is_prefix_of(path)) by {
            assert forall|t: int| 0 <= t < q.len() implies q[t] == path.subrange(
                0,
                q.len() as int,
            )[t] by {
                assert(q[t] == full.subrange(0, q.len() as int)[t]);
                assert(full[t] == path[t]);
            }
            assert(q =~= path.subrange(0, q.len() as int));
        }
        lemma_unblocked_prefix_kinds(m0, path, p, n2);
        lemma_table_prefix_modules(m1, path, name, p, n2);
    } else {
        assert(full.is_prefix_of(q));
        assert(full != q) by {
            if full == q {
                assert(q.len() == full.len());
            }
        }
        lemma_nonmodule_blocks_ext(m0, path, name, p, n2);
        lemma_nonmodule_blocks_ext(m1, path, name, p, n2);
    }
}

} // verus!
