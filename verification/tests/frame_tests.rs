use pipeline_semantics::frame::{Frame, FrameColumn, FrameInput, SortDirection};
use pipeline_semantics::ident::Ident;
use pipeline_semantics::pl::{Expr, ExprKind};

fn ident(path: &[&str], name: &str) -> Ident {
    Ident {
        path: path.iter().map(|s| s.to_string()).collect(),
        name: name.to_string(),
    }
}

fn ident_expr(id: usize, path: &[&str], name: &str) -> Expr {
    Expr { id: Some(id), alias: None, kind: ExprKind::Ident(ident(path, name)), ty: None }
}

fn aliased_literal(id: usize, alias: &str) -> Expr {
    Expr {
        id: Some(id),
        alias: Some(alias.to_string()),
        kind: ExprKind::Literal("1".to_string()),
        ty: None,
    }
}

#[test]
fn assign_bare_ident_then_alias_shadows() {
    let mut frame = Frame::new();
    frame.apply_assign(&ident_expr(1, &[], "foo"));
    assert_eq!(frame.columns.len(), 1);
    match &frame.columns[0] {
        FrameColumn::Single { name: Some(n), expr_id } => {
            assert_eq!(n.name, "foo");
            assert_eq!(*expr_id, 1);
        }
        other => panic!("unexpected column {:?}", other),
    }

    frame.apply_assign(&aliased_literal(2, "foo"));
    assert_eq!(frame.columns.len(), 2);
    match &frame.columns[0] {
        FrameColumn::Single { name: None, expr_id } => assert_eq!(*expr_id, 1),
        other => panic!("first column kept its name: {:?}", other),
    }
    match &frame.columns[1] {
        FrameColumn::Single { name: Some(n), expr_id } => {
            assert_eq!(n.name, "foo");
            assert_eq!(*expr_id, 2);
        }
        other => panic!("unexpected column {:?}", other),
    }
}

#[test]
fn at_most_one_column_carries_a_name() {
    let mut frame = Frame::new();
    frame.apply_assign(&ident_expr(1, &[], "x"));
    frame.apply_assign(&ident_expr(2, &[], "y"));
    frame.apply_assign(&ident_expr(3, &[], "x"));
    let named_x: Vec<&FrameColumn> = frame
        .columns
        .iter()
        .filter(|c| matches!(c, FrameColumn::Single { name: Some(n), .. } if n.name == "x"))
        .collect();
    assert_eq!(named_x.len(), 1);
    match &frame.columns[2] {
        FrameColumn::Single { name: Some(n), expr_id } => {
            assert_eq!(n.name, "x");
            assert_eq!(*expr_id, 3);
        }
        other => panic!("unexpected column {:?}", other),
    }
}

#[test]
fn wildcard_assign_appends_and_keeps_names() {
    let mut frame = Frame::new();
    frame.apply_assign(&ident_expr(1, &[], "x"));
    frame.apply_assign(&ident_expr(2, &["tbl"], "*"));
    assert_eq!(frame.columns.len(), 2);
    match &frame.columns[0] {
        FrameColumn::Single { name: Some(n), .. } => assert_eq!(n.name, "x"),
        other => panic!("existing column altered: {:?}", other),
    }
    match &frame.columns[1] {
        FrameColumn::Wildcard { input_name } => assert_eq!(input_name, "tbl"),
        other => panic!("unexpected column {:?}", other),
    }
}

#[test]
fn anonymous_assign_appends_unnamed() {
    let mut frame = Frame::new();
    let expr = Expr {
        id: Some(9),
        alias: None,
        kind: ExprKind::Literal("2".to_string()),
        ty: None,
    };
    frame.apply_assign(&expr);
    assert!(matches!(
        &frame.columns[0],
        FrameColumn::Single { name: None, expr_id: 9 }
    ));
}

#[test]
fn apply_assigns_in_order() {
    let mut frame = Frame::new();
    let assigns = vec![ident_expr(1, &[], "a"), ident_expr(2, &[], "b"), ident_expr(3, &[], "a")];
    frame.apply_assigns(&assigns);
    assert_eq!(frame.columns.len(), 3);
    assert!(matches!(&frame.columns[0], FrameColumn::Single { name: None, .. }));
    assert!(
        matches!(&frame.columns[2], FrameColumn::Single { name: Some(n), .. } if n.name == "a")
    );
}

#[test]
fn find_input_first_match_and_absent() {
    let frame = Frame {
        columns: vec![],
        inputs: vec![
            FrameInput { id: 1, name: "a".to_string(), table: None },
            FrameInput { id: 2, name: "b".to_string(), table: None },
            FrameInput { id: 3, name: "a".to_string(), table: None },
        ],
    };
    let found = frame.find_input(&"a".to_string()).expect("input a exists");
    assert_eq!(found.id, 1);
    assert!(frame.find_input(&"zzz".to_string()).is_none());
}

#[test]
fn sort_direction_defaults_to_ascending() {
    assert!(matches!(SortDirection::default(), SortDirection::Asc));
}
