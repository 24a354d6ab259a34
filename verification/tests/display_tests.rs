use pipeline_semantics::frame::{display_frame, display_frame_column, Frame, FrameColumn};
use pipeline_semantics::ident::Ident;
use pipeline_semantics::module::{DeclKind, TableDecl};
use pipeline_semantics::rq::{RelationColumn, RelationColumns};

fn ident(path: &[&str], name: &str) -> Ident {
    Ident {
        path: path.iter().map(|s| s.to_string()).collect(),
        name: name.to_string(),
    }
}

#[test]
fn ident_renders_dotted() {
    assert_eq!(ident(&["a", "b"], "c").display(), "a.b.c");
    assert_eq!(ident(&[], "x").display(), "x");
}

#[test]
fn frame_column_rendering() {
    let wc = FrameColumn::Wildcard { input_name: "tbl".to_string() };
    assert_eq!(display_frame_column(&wc, false), "tbl.*");
    let named = FrameColumn::Single { name: Some(ident(&[], "price")), expr_id: 12 };
    assert_eq!(display_frame_column(&named, false), "price");
    assert_eq!(display_frame_column(&named, true), "price:12");
    let anon = FrameColumn::Single { name: None, expr_id: 3 };
    assert_eq!(display_frame_column(&anon, false), "?");
    assert_eq!(display_frame_column(&anon, true), "?:3");
}

#[test]
fn frame_rendering() {
    let frame = Frame {
        columns: vec![
            FrameColumn::Single { name: Some(ident(&[], "a")), expr_id: 1 },
            FrameColumn::Wildcard { input_name: "t".to_string() },
            FrameColumn::Single { name: None, expr_id: 2 },
        ],
        inputs: vec![],
    };
    assert_eq!(frame.display(), "[a, t.*, ?]");
    assert_eq!(display_frame(&frame, true), "[a:1, t.*, ?:2]");
    assert_eq!(Frame::new().display(), "[]");
}

#[test]
fn relation_columns_rendering() {
    let cols = RelationColumns(vec![
        RelationColumn::Single(Some("id".to_string())),
        RelationColumn::Single(None),
        RelationColumn::Wildcard,
    ]);
    assert_eq!(cols.display(), "[id, <unnamed>, *]");
}

#[test]
fn decl_kind_rendering() {
    assert_eq!(DeclKind::NoResolve.display(), "NoResolve");
    assert_eq!(DeclKind::Column(7).display(), "Column (target 7)");
    assert_eq!(
        DeclKind::InstanceOf(ident(&["default_db"], "orders")).display(),
        "InstanceOf: default_db.orders"
    );
    let td = DeclKind::TableDecl(TableDecl {
        columns: vec![RelationColumn::Wildcard, RelationColumn::Single(Some("id".to_string()))],
        expr: None,
    });
    assert_eq!(td.display(), "TableDecl: [*, id]");
    let wc = DeclKind::Wildcard(Box::new(DeclKind::Column(3)));
    assert_eq!(wc.display(), "Wildcard (default: Column (target 3))");
}
