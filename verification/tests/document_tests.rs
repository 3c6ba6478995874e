use doc_explorer::document_struct;
use doc_explorer::has_name_collision;
use doc_explorer::CrateDesc;
use doc_explorer::FieldDoc;
use doc_explorer::Item;
use doc_explorer::ItemKind;
use doc_explorer::StructDocument;
use doc_explorer::StructKind;

fn item(name: Option<&str>, docs: Option<&str>, kind: ItemKind) -> Item {
    Item {
        name: name.map(|s| s.to_string()),
        docs: docs.map(|s| s.to_string()),
        kind,
    }
}

fn doc(name: &str, docs: Option<&str>, fields: Vec<(&str, Option<&str>)>) -> StructDocument {
    StructDocument {
        name: name.to_string(),
        docs: docs.map(|s| s.to_string()),
        fields: fields
            .into_iter()
            .map(|(n, d)| FieldDoc {
                name: n.to_string(),
                docs: d.map(|s| s.to_string()),
            })
            .collect(),
    }
}

#[test]
fn template_is_exact() {
    let d = doc(
        "Point",
        Some("A 2D point."),
        vec![("x", Some("X coordinate.")), ("y", None)],
    );
    let expected = "Point is a struct.\n\n\
A 2D point.\n\n\
It has the following fields: x, y, \n\n\
More details about the x field:\n\n\
X coordinate.\n\n";
    assert_eq!(d.render(), expected);
}

#[test]
fn unit_struct_renders_header_and_doc_only() {
    let d = doc("Marker", Some("A marker type."), vec![]);
    assert_eq!(d.render(), "Marker is a struct.\n\nA marker type.\n\n");
}

#[test]
fn undocumented_unit_struct_renders_header_only() {
    let d = doc("Bare", None, vec![]);
    assert_eq!(d.render(), "Bare is a struct.\n\n");
}

#[test]
fn fields_without_docs_get_no_detail_section() {
    let d = doc("P", None, vec![("a", None), ("b", None)]);
    assert_eq!(d.render(), "P is a struct.\n\nIt has the following fields: a, b, \n\n");
}

#[test]
fn output_file_name_is_name_with_extension() {
    let d = doc("Point", None, vec![]);
    assert_eq!(d.output_file_name(), "Point.md");
}

#[test]
fn tuple_struct_contributes_no_fields() {
    let desc = CrateDesc {
        name: "c".to_string(),
        root: 0,
        index: vec![(0, item(Some("T"), Some("Tuple."), ItemKind::Struct { kind: StructKind::Tuple }))],
    };
    let it = item(Some("T"), Some("Tuple."), ItemKind::Struct { kind: StructKind::Tuple });
    let d = document_struct(&desc, &it, &StructKind::Tuple);
    assert_eq!(d.name, "T");
    assert_eq!(d.docs.as_deref(), Some("Tuple."));
    assert!(d.fields.is_empty());
    assert_eq!(d.render(), "T is a struct.\n\nTuple.\n\n");
}

#[test]
fn plain_fields_resolve_in_declaration_order() {
    let desc = CrateDesc {
        name: "c".to_string(),
        root: 0,
        index: vec![
            (5, item(Some("second"), None, ItemKind::StructField)),
            (4, item(Some("first"), Some("the first"), ItemKind::StructField)),
        ],
    };
    let kind = StructKind::Plain { fields: vec![4, 5] };
    let it = item(
        Some("S"),
        None,
        ItemKind::Struct {
            kind: StructKind::Plain { fields: vec![4, 5] },
        },
    );
    let d = document_struct(&desc, &it, &kind);
    assert_eq!(d.fields.len(), 2);
    assert_eq!(d.fields[0].name, "first");
    assert_eq!(d.fields[0].docs.as_deref(), Some("the first"));
    assert_eq!(d.fields[1].name, "second");
    assert!(d.fields[1].docs.is_none());
}

#[test]
fn name_collision_is_surfaced() {
    let batch = vec![
        doc("A", None, vec![]),
        doc("B", None, vec![]),
        doc("A", Some("other crate"), vec![]),
    ];
    assert!(has_name_collision(&batch));
    let clean = vec![doc("A", None, vec![]), doc("B", None, vec![])];
    assert!(!has_name_collision(&clean));
    let empty: Vec<StructDocument> = vec![];
    assert!(!has_name_collision(&empty));
}
