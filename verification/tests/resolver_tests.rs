use pipeline_semantics::context::Context;
use pipeline_semantics::error::NameError;
use pipeline_semantics::frame::{Frame, FrameColumn, FrameInput};
use pipeline_semantics::ident::Ident;
use pipeline_semantics::module::{Decl, DeclKind, Module, TableDecl};
use pipeline_semantics::pl::{Expr, ExprKind, FuncDef, TableDef, Ty};
use pipeline_semantics::rq::RelationColumn;

fn ident(path: &[&str], name: &str) -> Ident {
    Ident {
        path: path.iter().map(|s| s.to_string()).collect(),
        name: name.to_string(),
    }
}

fn table_decl(columns: Vec<RelationColumn>, expr: Option<Expr>) -> Decl {
    Decl {
        declared_at: None,
        kind: DeclKind::TableDecl(TableDecl { columns, expr: expr.map(Box::new) }),
    }
}

fn table_expr(id: usize, frame: Frame) -> Expr {
    Expr {
        id: Some(id),
        alias: None,
        kind: ExprKind::Literal("pipeline".to_string()),
        ty: Some(Ty::Table(frame)),
    }
}

fn columns_of(ctx: &Context, table: &Ident) -> Vec<RelationColumn> {
    match ctx.root_mod.get(table) {
        Some(Decl { kind: DeclKind::TableDecl(td), .. }) => td.columns.clone(),
        _ => panic!("{} is not a table", table.name),
    }
}

fn single(name: &str) -> RelationColumn {
    RelationColumn::Single(Some(name.to_string()))
}

#[test]
fn unknown_name_without_wildcard() {
    let mut ctx = Context::new();
    match ctx.resolve_ident(&ident(&[], "bar")) {
        Err(NameError::UnknownName { ident: u }) => assert_eq!(u.name, "bar"),
        other => panic!("expected UnknownName, got {:?}", other),
    }
}

#[test]
fn star_itself_never_falls_back() {
    let mut ctx = Context::new();
    assert!(matches!(
        ctx.resolve_ident(&ident(&[], "*")),
        Err(NameError::UnknownName { .. })
    ));
}

#[test]
fn declared_function_resolves_deterministically() {
    let mut ctx = Context::new();
    ctx.declare_func(FuncDef { name: "sum".to_string(), body: None }, Some(3)).unwrap();
    let first = ctx.resolve_ident(&ident(&["std"], "sum")).unwrap();
    assert_eq!(first, ident(&["std"], "sum"));
    let second = ctx.resolve_ident(&ident(&["std"], "sum")).unwrap();
    assert_eq!(first, second);
}

#[test]
fn redeclared_function_wins_last() {
    let mut ctx = Context::new();
    ctx.declare_func(FuncDef { name: "f".to_string(), body: None }, Some(1)).unwrap();
    ctx.declare_func(FuncDef { name: "f".to_string(), body: None }, Some(2)).unwrap();
    match ctx.root_mod.get(&ident(&["std"], "f")) {
        Some(d) => assert_eq!(d.declared_at, Some(2)),
        None => panic!("function lost"),
    }
}

#[test]
fn blocked_namespace_is_a_path_conflict() {
    let mut ctx = Context::new();
    ctx.root_mod.names.push((
        "std".to_string(),
        Decl { declared_at: None, kind: DeclKind::NoResolve },
    ));
    assert!(matches!(
        ctx.declare_func(FuncDef { name: "f".to_string(), body: None }, None),
        Err(NameError::PathConflict { .. })
    ));
}

#[test]
fn layered_namespaces_make_identical_names_ambiguous() {
    let mut ctx = Context::new();
    let layer = |target: usize| Module {
        names: vec![(
            "x".to_string(),
            Decl { declared_at: None, kind: DeclKind::Column(target) },
        )],
    };
    ctx.root_mod.names.push((
        "scope".to_string(),
        Decl { declared_at: None, kind: DeclKind::LayeredModules(vec![layer(1), layer(2)]) },
    ));
    match ctx.resolve_ident(&ident(&["scope"], "x")) {
        Err(NameError::AmbiguousName { candidates }) => {
            assert_eq!(candidates.len(), 2);
            for c in &candidates {
                assert_eq!(*c, ident(&["scope"], "x"));
            }
        }
        other => panic!("expected AmbiguousName, got {:?}", other),
    }
}

#[test]
fn declare_table_maps_frame_columns() {
    let mut ctx = Context::new();
    let frame = Frame {
        columns: vec![
            FrameColumn::Wildcard { input_name: "o".to_string() },
            FrameColumn::Single { name: Some(ident(&[], "total")), expr_id: 4 },
            FrameColumn::Single { name: None, expr_id: 5 },
        ],
        inputs: vec![],
    };
    let def = TableDef { name: "orders".to_string(), value: table_expr(10, frame) };
    ctx.declare_table(def, Some(11)).unwrap();
    let cols = columns_of(&ctx, &ident(&["default_db"], "orders"));
    assert_eq!(
        cols,
        vec![RelationColumn::Wildcard, single("total"), RelationColumn::Single(None)]
    );
}

/// Tables `raw_orders` (external, wildcard-only) and `orders` (defined from
/// `raw_orders`, wildcard-only): inferring a column on `orders` records it
/// on `orders` and propagates it into `raw_orders`.
fn orders_over_raw_orders() -> Context {
    let mut ctx = Context::new();
    ctx.root_mod
        .insert(
            &ident(&["default_db"], "raw_orders"),
            table_decl(vec![RelationColumn::Wildcard], None),
        )
        .unwrap();
    let frame = Frame {
        columns: vec![FrameColumn::Wildcard { input_name: "o".to_string() }],
        inputs: vec![FrameInput {
            id: 20,
            name: "o".to_string(),
            table: Some(ident(&["default_db"], "raw_orders")),
        }],
    };
    ctx.root_mod
        .insert(
            &ident(&["default_db"], "orders"),
            table_decl(vec![RelationColumn::Wildcard], Some(table_expr(10, frame))),
        )
        .unwrap();
    ctx
}

#[test]
fn inference_propagates_upstream() {
    let mut ctx = orders_over_raw_orders();
    let orders = ident(&["default_db"], "orders");
    let raw = ident(&["default_db"], "raw_orders");
    ctx.infer_table_column(&orders, &"id".to_string()).unwrap();
    assert_eq!(columns_of(&ctx, &orders), vec![RelationColumn::Wildcard, single("id")]);
    assert_eq!(columns_of(&ctx, &raw), vec![RelationColumn::Wildcard, single("id")]);
}

#[test]
fn inference_is_idempotent() {
    let mut ctx = orders_over_raw_orders();
    let orders = ident(&["default_db"], "orders");
    ctx.infer_table_column(&orders, &"price".to_string()).unwrap();
    ctx.infer_table_column(&orders, &"price".to_string()).unwrap();
    let cols = columns_of(&ctx, &orders);
    let count = cols.iter().filter(|c| **c == single("price")).count();
    assert_eq!(count, 1);
    let raw_cols = columns_of(&ctx, &ident(&["default_db"], "raw_orders"));
    assert_eq!(raw_cols.iter().filter(|c| **c == single("price")).count(), 1);
}

#[test]
fn inference_needs_a_wildcard() {
    let mut ctx = Context::new();
    let t = ident(&["default_db"], "fixed");
    ctx.root_mod.insert(&t, table_decl(vec![single("a")], None)).unwrap();
    assert!(matches!(
        ctx.infer_table_column(&t, &"b".to_string()),
        Err(NameError::NoWildcardOnTable { .. })
    ));
    assert_eq!(columns_of(&ctx, &t), vec![single("a")]);
}

#[test]
fn inference_impossible_without_wildcard_input() {
    let mut ctx = Context::new();
    let t = ident(&["default_db"], "t");
    let frame = Frame {
        columns: vec![FrameColumn::Single { name: Some(ident(&[], "a")), expr_id: 1 }],
        inputs: vec![],
    };
    ctx.root_mod
        .insert(
            &t,
            table_decl(vec![RelationColumn::Wildcard], Some(table_expr(2, frame))),
        )
        .unwrap();
    assert!(matches!(
        ctx.infer_table_column(&t, &"c".to_string()),
        Err(NameError::InferenceImpossible { .. })
    ));
    // The failed step still records the observed column on the table.
    assert_eq!(columns_of(&ctx, &t), vec![RelationColumn::Wildcard, single("c")]);
}

#[test]
fn inference_ambiguous_with_two_wildcard_inputs() {
    let mut ctx = Context::new();
    let t = ident(&["default_db"], "t");
    let frame = Frame {
        columns: vec![
            FrameColumn::Wildcard { input_name: "a".to_string() },
            FrameColumn::Wildcard { input_name: "b".to_string() },
        ],
        inputs: vec![],
    };
    ctx.root_mod
        .insert(
            &t,
            table_decl(vec![RelationColumn::Wildcard], Some(table_expr(2, frame))),
        )
        .unwrap();
    match ctx.infer_table_column(&t, &"c".to_string()) {
        Err(NameError::InferenceAmbiguous { inputs, .. }) => {
            assert_eq!(inputs, vec!["a".to_string(), "b".to_string()]);
        }
        other => panic!("expected InferenceAmbiguous, got {:?}", other),
    }
}

#[test]
fn cyclic_table_graph_still_terminates() {
    let mut ctx = Context::new();
    let a = ident(&["default_db"], "a");
    let b = ident(&["default_db"], "b");
    let frame_from = |name: &str, target: &Ident| Frame {
        columns: vec![FrameColumn::Wildcard { input_name: name.to_string() }],
        inputs: vec![FrameInput { id: 1, name: name.to_string(), table: Some(target.clone()) }],
    };
    ctx.root_mod
        .insert(
            &a,
            table_decl(vec![RelationColumn::Wildcard], Some(table_expr(2, frame_from("x", &b)))),
        )
        .unwrap();
    ctx.root_mod
        .insert(
            &b,
            table_decl(vec![RelationColumn::Wildcard], Some(table_expr(3, frame_from("y", &a)))),
        )
        .unwrap();
    ctx.infer_table_column(&a, &"c".to_string()).unwrap();
    assert_eq!(columns_of(&ctx, &a), vec![RelationColumn::Wildcard, single("c")]);
    assert_eq!(columns_of(&ctx, &b), vec![RelationColumn::Wildcard, single("c")]);
}

/// The whole wildcard path of resolution: the lookup falls back to `*`,
/// the default is materialized under the requested name, the scope's
/// table instance gets the column inferred, and the column is recorded
/// for the wildcard's source node.
#[test]
fn wildcard_resolution_materializes_and_infers() {
    let mut ctx = orders_over_raw_orders();
    let scope = Module {
        names: vec![
            (
                "*".to_string(),
                Decl {
                    declared_at: Some(7),
                    kind: DeclKind::Wildcard(Box::new(DeclKind::Column(99))),
                },
            ),
            (
                "_self".to_string(),
                Decl {
                    declared_at: None,
                    kind: DeclKind::InstanceOf(ident(&["default_db"], "orders")),
                },
            ),
        ],
    };
    ctx.root_mod
        .names
        .push(("scope".to_string(), Decl { declared_at: None, kind: DeclKind::Module(scope) }));

    let resolved = ctx.resolve_ident(&ident(&["scope"], "price")).unwrap();
    assert_eq!(resolved, ident(&["scope"], "price"));

    // Memoized: the name is now a direct entry of the scope.
    let memo = ctx.root_mod.get(&ident(&["scope"], "price")).expect("memoized entry");
    assert!(matches!(memo.kind, DeclKind::Column(99)));

    // Inferred into the instance's table and its upstream feeder.
    let orders_cols = columns_of(&ctx, &ident(&["default_db"], "orders"));
    assert_eq!(orders_cols, vec![RelationColumn::Wildcard, single("price")]);
    let raw_cols = columns_of(&ctx, &ident(&["default_db"], "raw_orders"));
    assert_eq!(raw_cols, vec![RelationColumn::Wildcard, single("price")]);

    // Recorded for the wildcard's source node, once.
    assert_eq!(ctx.inferred_columns.len(), 1);
    assert_eq!(ctx.inferred_columns[0].0, 7);
    assert_eq!(ctx.inferred_columns[0].1, vec![single("price")]);

    // Resolving again takes the direct hit and changes nothing further.
    let again = ctx.resolve_ident(&ident(&["scope"], "price")).unwrap();
    assert_eq!(again, resolved);
    assert_eq!(ctx.inferred_columns[0].1, vec![single("price")]);
    assert_eq!(
        columns_of(&ctx, &ident(&["default_db"], "orders")),
        vec![RelationColumn::Wildcard, single("price")]
    );
}

/// An inference failure propagates out of resolution unchanged, and the
/// materialized wildcard default stays bound: the repeat resolution then
/// takes the direct hit.
#[test]
fn failed_inference_propagates_and_keeps_the_memo() {
    let mut ctx = Context::new();
    // The instance table has no wildcard marker, so inference must fail.
    ctx.root_mod
        .insert(&ident(&["default_db"], "fixed"), table_decl(vec![single("a")], None))
        .unwrap();
    let scope = Module {
        names: vec![
            (
                "*".to_string(),
                Decl {
                    declared_at: None,
                    kind: DeclKind::Wildcard(Box::new(DeclKind::Column(5))),
                },
            ),
            (
                "_self".to_string(),
                Decl {
                    declared_at: None,
                    kind: DeclKind::InstanceOf(ident(&["default_db"], "fixed")),
                },
            ),
        ],
    };
    ctx.root_mod
        .names
        .push(("scope".to_string(), Decl { declared_at: None, kind: DeclKind::Module(scope) }));

    match ctx.resolve_ident(&ident(&["scope"], "b")) {
        Err(NameError::NoWildcardOnTable { table }) => {
            assert_eq!(table, ident(&["default_db"], "fixed"));
        }
        other => panic!("expected NoWildcardOnTable, got {:?}", other),
    }
    // No rollback: the memoized binding is there, so the retry resolves.
    let memo = ctx.root_mod.get(&ident(&["scope"], "b")).expect("memo kept");
    assert!(matches!(memo.kind, DeclKind::Column(5)));
    assert!(ctx.inferred_columns.is_empty());
    let again = ctx.resolve_ident(&ident(&["scope"], "b")).unwrap();
    assert_eq!(again, ident(&["scope"], "b"));
}
