use doc_explorer::walk;
use doc_explorer::Catalog;
use doc_explorer::CrateDesc;
use doc_explorer::Item;
use doc_explorer::ItemKind;
use doc_explorer::StructKind;
use doc_explorer::WalkError;

fn item(name: Option<&str>, docs: Option<&str>, kind: ItemKind) -> Item {
    Item {
        name: name.map(|s| s.to_string()),
        docs: docs.map(|s| s.to_string()),
        kind,
    }
}

fn desc(name: &str, root: u64, index: Vec<(u64, Item)>) -> CrateDesc {
    CrateDesc {
        name: name.to_string(),
        root,
        index,
    }
}

fn single_crate(index: Vec<(u64, Item)>, root: u64) -> Catalog {
    Catalog {
        slots: vec![Some(desc("target", root, index))],
    }
}

#[test]
fn termination_on_reexport_cycle() {
    // crate 0 re-exports into crate 1, which re-exports back into crate 0
    let a = desc(
        "a",
        0,
        vec![
            (
                0,
                item(
                    Some("a"),
                    None,
                    ItemKind::Module { children: vec![1] },
                ),
            ),
            (
                1,
                item(
                    None,
                    None,
                    ItemKind::Use {
                        source: "b::thing".to_string(),
                        id: Some(0),
                    },
                ),
            ),
        ],
    );
    let b = desc(
        "b",
        0,
        vec![
            (
                0,
                item(
                    Some("b"),
                    None,
                    ItemKind::Module { children: vec![1] },
                ),
            ),
            (
                1,
                item(
                    None,
                    None,
                    ItemKind::Use {
                        source: "a::thing".to_string(),
                        id: Some(0),
                    },
                ),
            ),
        ],
    );
    let cat = Catalog {
        slots: vec![Some(a), Some(b)],
    };
    assert!(cat.check_wf());
    let (docs, err) = walk(&cat);
    assert!(docs.is_empty());
    assert!(err.is_none());
}

#[test]
fn walk_twice_is_byte_identical() {
    let index = vec![
        (
            0,
            item(
                Some("root"),
                None,
                ItemKind::Module {
                    children: vec![1, 2],
                },
            ),
        ),
        (
            1,
            item(
                Some("Point"),
                Some("A 2D point."),
                ItemKind::Struct {
                    kind: StructKind::Plain {
                        fields: vec![3, 4],
                    },
                },
            ),
        ),
        (2, item(Some("Unit"), Some("Nothing."), ItemKind::Struct { kind: StructKind::Unit })),
        (3, item(Some("x"), Some("X coordinate."), ItemKind::StructField)),
        (4, item(Some("y"), None, ItemKind::StructField)),
    ];
    let cat = single_crate(index, 0);
    assert!(cat.check_wf());
    let (docs1, err1) = walk(&cat);
    let (docs2, err2) = walk(&cat);
    assert_eq!(err1, err2);
    assert_eq!(docs1.len(), docs2.len());
    for (d1, d2) in docs1.iter().zip(docs2.iter()) {
        assert_eq!(d1.render(), d2.render());
        assert_eq!(d1.output_file_name(), d2.output_file_name());
    }
}

#[test]
fn crate_boundary_resolution() {
    // crate 0 holds `pub use other_crate::Foo;`; other_crate sits at slot 2
    let target = desc(
        "target",
        0,
        vec![
            (
                0,
                item(
                    Some("target"),
                    None,
                    ItemKind::Module { children: vec![1] },
                ),
            ),
            (
                1,
                item(
                    None,
                    None,
                    ItemKind::Use {
                        source: "other_crate::Foo".to_string(),
                        id: Some(99),
                    },
                ),
            ),
        ],
    );
    let other = desc(
        "other_crate",
        7,
        vec![
            (
                7,
                item(
                    Some("other_crate"),
                    None,
                    ItemKind::Module { children: vec![8] },
                ),
            ),
            (
                8,
                item(
                    Some("Foo"),
                    Some("Foreign struct."),
                    ItemKind::Struct { kind: StructKind::Unit },
                ),
            ),
        ],
    );
    let cat = Catalog {
        slots: vec![Some(target), None, Some(other)],
    };
    assert!(cat.check_wf());
    let (docs, err) = walk(&cat);
    assert!(err.is_none());
    assert_eq!(docs.len(), 1);
    assert_eq!(docs[0].name, "Foo");
    assert_eq!(docs[0].docs.as_deref(), Some("Foreign struct."));
}

#[test]
fn local_fallback_on_unresolved_external_name() {
    // the first path segment matches no loaded crate: fall back to the
    // re-export's own target in the current crate
    let index = vec![
        (
            0,
            item(
                Some("root"),
                None,
                ItemKind::Module { children: vec![1] },
            ),
        ),
        (
            1,
            item(
                None,
                None,
                ItemKind::Use {
                    source: "missing_crate::Bar".to_string(),
                    id: Some(2),
                },
            ),
        ),
        (
            2,
            item(
                Some("Bar"),
                Some("Local after all."),
                ItemKind::Struct { kind: StructKind::Unit },
            ),
        ),
    ];
    let cat = single_crate(index, 0);
    assert!(cat.check_wf());
    let (docs, err) = walk(&cat);
    assert!(err.is_none());
    assert_eq!(docs.len(), 1);
    assert_eq!(docs[0].name, "Bar");
}

#[test]
fn self_reference_marker_stays_local() {
    let index = vec![
        (
            0,
            item(
                Some("root"),
                None,
                ItemKind::Module { children: vec![1] },
            ),
        ),
        (
            1,
            item(
                None,
                None,
                ItemKind::Use {
                    source: "crate::inner::Baz".to_string(),
                    id: Some(2),
                },
            ),
        ),
        (2, item(Some("Baz"), None, ItemKind::Struct { kind: StructKind::Unit })),
    ];
    let cat = single_crate(index, 0);
    assert!(cat.check_wf());
    let (docs, err) = walk(&cat);
    assert!(err.is_none());
    assert_eq!(docs.len(), 1);
    assert_eq!(docs[0].name, "Baz");
}

#[test]
fn field_locality_across_crates() {
    // the struct lives in crate 1; crate 0 holds items under the same
    // identifiers with different names, and must never be consulted
    let target = desc(
        "target",
        0,
        vec![
            (
                0,
                item(
                    Some("target"),
                    None,
                    ItemKind::Module { children: vec![1] },
                ),
            ),
            (
                1,
                item(
                    None,
                    None,
                    ItemKind::Use {
                        source: "other::S".to_string(),
                        id: Some(10),
                    },
                ),
            ),
            (10, item(Some("wrong_a"), None, ItemKind::StructField)),
            (11, item(Some("wrong_b"), None, ItemKind::StructField)),
        ],
    );
    let other = desc(
        "other",
        0,
        vec![
            (
                0,
                item(
                    Some("other"),
                    None,
                    ItemKind::Module { children: vec![9] },
                ),
            ),
            (
                9,
                item(
                    Some("S"),
                    None,
                    ItemKind::Struct {
                        kind: StructKind::Plain {
                            fields: vec![10, 11],
                        },
                    },
                ),
            ),
            (10, item(Some("a"), Some("first"), ItemKind::StructField)),
            (11, item(Some("b"), None, ItemKind::StructField)),
        ],
    );
    let cat = Catalog {
        slots: vec![Some(target), Some(other)],
    };
    assert!(cat.check_wf());
    let (docs, err) = walk(&cat);
    assert!(err.is_none());
    assert_eq!(docs.len(), 1);
    assert_eq!(docs[0].name, "S");
    assert_eq!(docs[0].fields.len(), 2);
    assert_eq!(docs[0].fields[0].name, "a");
    assert_eq!(docs[0].fields[0].docs.as_deref(), Some("first"));
    assert_eq!(docs[0].fields[1].name, "b");
    assert!(docs[0].fields[1].docs.is_none());
}

#[test]
fn unsupported_variant_aborts_in_order() {
    // a union sits between two structs in declaration order: the first
    // struct is documented, the second is not
    let index = vec![
        (
            0,
            item(
                Some("root"),
                None,
                ItemKind::Module {
                    children: vec![1, 2, 3],
                },
            ),
        ),
        (1, item(Some("Before"), None, ItemKind::Struct { kind: StructKind::Unit })),
        (2, item(Some("Bad"), None, ItemKind::Union)),
        (3, item(Some("After"), None, ItemKind::Struct { kind: StructKind::Unit })),
    ];
    let cat = single_crate(index, 0);
    assert!(cat.check_wf());
    let (docs, err) = walk(&cat);
    assert_eq!(docs.len(), 1);
    assert_eq!(docs[0].name, "Before");
    match err {
        Some(WalkError::Unsupported { crate_index, .. }) => {
            assert_eq!(crate_index, 0);
        }
        None => panic!("expected the unsupported variant to abort the walk"),
    }
}

#[test]
fn enum_variants_are_traversed_as_leaves() {
    let index = vec![
        (
            0,
            item(
                Some("root"),
                None,
                ItemKind::Module {
                    children: vec![1, 4],
                },
            ),
        ),
        (
            1,
            item(
                Some("E"),
                None,
                ItemKind::Enum {
                    variants: vec![2, 3],
                },
            ),
        ),
        (2, item(Some("A"), None, ItemKind::Variant)),
        (3, item(Some("B"), None, ItemKind::Variant)),
        (4, item(Some("AfterEnum"), None, ItemKind::Struct { kind: StructKind::Unit })),
    ];
    let cat = single_crate(index, 0);
    assert!(cat.check_wf());
    let (docs, err) = walk(&cat);
    assert!(err.is_none());
    assert_eq!(docs.len(), 1);
    assert_eq!(docs[0].name, "AfterEnum");
}

#[test]
fn traversal_is_preorder_by_declaration() {
    // a nested module's struct comes before a later sibling struct
    let index = vec![
        (
            0,
            item(
                Some("root"),
                None,
                ItemKind::Module {
                    children: vec![1, 3],
                },
            ),
        ),
        (
            1,
            item(
                Some("inner"),
                None,
                ItemKind::Module { children: vec![2] },
            ),
        ),
        (2, item(Some("First"), None, ItemKind::Struct { kind: StructKind::Unit })),
        (3, item(Some("Second"), None, ItemKind::Struct { kind: StructKind::Unit })),
    ];
    let cat = single_crate(index, 0);
    assert!(cat.check_wf());
    let (docs, err) = walk(&cat);
    assert!(err.is_none());
    assert_eq!(docs.len(), 2);
    assert_eq!(docs[0].name, "First");
    assert_eq!(docs[1].name, "Second");
}

#[test]
fn leaf_kinds_are_inert() {
    let index = vec![
        (
            0,
            item(
                Some("root"),
                None,
                ItemKind::Module {
                    children: vec![1, 2, 3, 4, 5, 6, 7, 8, 9, 10, 11, 12],
                },
            ),
        ),
        (1, item(Some("f"), None, ItemKind::Function)),
        (2, item(Some("T"), None, ItemKind::Trait)),
        (3, item(None, None, ItemKind::Impl)),
        (4, item(Some("A"), None, ItemKind::TypeAlias)),
        (5, item(Some("C"), None, ItemKind::Constant)),
        (6, item(Some("S"), None, ItemKind::Static)),
        (7, item(Some("m"), None, ItemKind::Macro)),
        (8, item(Some("p"), None, ItemKind::ProcMacro)),
        (9, item(Some("At"), None, ItemKind::AssocType)),
        (10, item(Some("v"), None, ItemKind::Variant)),
        (11, item(Some("fld"), None, ItemKind::StructField)),
        (12, item(Some("Last"), None, ItemKind::Struct { kind: StructKind::Unit })),
    ];
    let cat = single_crate(index, 0);
    assert!(cat.check_wf());
    let (docs, err) = walk(&cat);
    assert!(err.is_none());
    assert_eq!(docs.len(), 1);
    assert_eq!(docs[0].name, "Last");
}

#[test]
fn dangling_child_falls_back_to_root_and_terminates() {
    // a module lists an identifier the index does not hold: resolution
    // falls back to the root item, which only re-queues already-visited
    // children, so the walk still terminates
    let index = vec![
        (
            0,
            item(
                Some("root"),
                None,
                ItemKind::Module {
                    children: vec![77, 1],
                },
            ),
        ),
        (1, item(Some("Real"), None, ItemKind::Struct { kind: StructKind::Unit })),
    ];
    let cat = single_crate(index, 0);
    assert!(cat.check_wf());
    let (docs, err) = walk(&cat);
    assert!(err.is_none());
    assert_eq!(docs.len(), 1);
    assert_eq!(docs[0].name, "Real");
}

#[test]
fn shared_item_is_documented_once() {
    // two re-exports of the same struct: the visited set deduplicates it
    let index = vec![
        (
            0,
            item(
                Some("root"),
                None,
                ItemKind::Module {
                    children: vec![1, 2],
                },
            ),
        ),
        (
            1,
            item(
                None,
                None,
                ItemKind::Use {
                    source: "crate::Once".to_string(),
                    id: Some(3),
                },
            ),
        ),
        (
            2,
            item(
                None,
                None,
                ItemKind::Use {
                    source: "crate::Once".to_string(),
                    id: Some(3),
                },
            ),
        ),
        (3, item(Some("Once"), None, ItemKind::Struct { kind: StructKind::Unit })),
    ];
    let cat = single_crate(index, 0);
    assert!(cat.check_wf());
    let (docs, err) = walk(&cat);
    assert!(err.is_none());
    assert_eq!(docs.len(), 1);
    assert_eq!(docs[0].name, "Once");
}
