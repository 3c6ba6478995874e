use doc_explorer::build_catalog;
use doc_explorer::excluded_crate;
use doc_explorer::path_first_segment;
use doc_explorer::str_eq;
use doc_explorer::Catalog;
use doc_explorer::CrateDesc;
use doc_explorer::Item;
use doc_explorer::ItemKind;
use doc_explorer::ResolveTarget;
use doc_explorer::StructKind;

fn item(name: Option<&str>, docs: Option<&str>, kind: ItemKind) -> Item {
    Item {
        name: name.map(|s| s.to_string()),
        docs: docs.map(|s| s.to_string()),
        kind,
    }
}

fn desc(name: &str, root: u64, index: Vec<(u64, Item)>) -> CrateDesc {
    CrateDesc {
        name: name.to_string(),
        root,
        index,
    }
}

#[test]
fn first_segment_cases() {
    assert_eq!(path_first_segment("a::b::c"), "a");
    assert_eq!(path_first_segment("crate::x"), "crate");
    assert_eq!(path_first_segment("super::y::z"), "super");
    assert_eq!(path_first_segment("nosep"), "nosep");
    assert_eq!(path_first_segment(""), "");
    assert_eq!(path_first_segment("::leading"), "");
    assert_eq!(path_first_segment("a:b"), "a:b");
    assert_eq!(path_first_segment(":"), ":");
}

#[test]
fn str_eq_cases() {
    assert!(str_eq("", ""));
    assert!(str_eq("abc", "abc"));
    assert!(!str_eq("abc", "abd"));
    assert!(!str_eq("abc", "ab"));
    assert!(!str_eq("", "x"));
}

#[test]
fn excluded_crate_policy() {
    assert!(excluded_crate("typenum"));
    assert!(!excluded_crate("serde"));
    assert!(!excluded_crate(""));
}

#[test]
fn lookup_and_resolve_fall_back_to_root() {
    let d = desc(
        "c",
        1,
        vec![
            (1, item(Some("root"), None, ItemKind::Module { children: vec![] })),
            (2, item(Some("S"), None, ItemKind::Struct { kind: StructKind::Unit })),
        ],
    );
    assert!(d.lookup(2).is_some());
    assert!(d.lookup(99).is_none());
    // an absent identifier resolves to the root item
    let via_fallback = d.resolve(ResolveTarget::ById(99)).expect("root present");
    assert_eq!(via_fallback.name.as_deref(), Some("root"));
    // the explicit root target also resolves to the root item
    let via_root = d.resolve(ResolveTarget::CrateRoot).expect("root present");
    assert_eq!(via_root.name.as_deref(), Some("root"));
    // a present identifier resolves to its own item
    let direct = d.resolve(ResolveTarget::ById(2)).expect("present");
    assert_eq!(direct.name.as_deref(), Some("S"));
}

#[test]
fn find_crate_takes_first_populated_match() {
    let cat = Catalog {
        slots: vec![
            Some(desc("target", 0, vec![(0, item(None, None, ItemKind::Module { children: vec![] }))])),
            None,
            Some(desc("dup", 0, vec![(0, item(None, None, ItemKind::Module { children: vec![] }))])),
            Some(desc("dup", 0, vec![(0, item(None, None, ItemKind::Module { children: vec![] }))])),
        ],
    };
    assert_eq!(cat.find_crate("dup"), Some(2));
    assert_eq!(cat.find_crate("target"), Some(0));
    assert_eq!(cat.find_crate("absent"), None);
}

#[test]
fn build_catalog_places_target_and_externals() {
    let target = desc("t", 0, vec![(0, item(Some("t"), None, ItemKind::Module { children: vec![] }))]);
    let ext_a = desc("a", 0, vec![(0, item(Some("a"), None, ItemKind::Module { children: vec![] }))]);
    let ext_b = desc("b", 0, vec![(0, item(Some("b"), None, ItemKind::Module { children: vec![] }))]);
    let cat = build_catalog(target, vec![(3, ext_a), (1, ext_b)]);
    assert_eq!(cat.slots.len(), 4);
    assert_eq!(cat.slots[0].as_ref().map(|d| d.name.as_str()), Some("t"));
    assert_eq!(cat.slots[1].as_ref().map(|d| d.name.as_str()), Some("b"));
    assert!(cat.slots[2].is_none());
    assert_eq!(cat.slots[3].as_ref().map(|d| d.name.as_str()), Some("a"));
}

#[test]
fn build_catalog_without_externals_is_target_only() {
    let target = desc("t", 0, vec![(0, item(Some("t"), None, ItemKind::Module { children: vec![] }))]);
    let cat = build_catalog(target, vec![]);
    assert_eq!(cat.slots.len(), 1);
    assert!(cat.slots[0].is_some());
}

#[test]
fn check_wf_accepts_a_sound_catalog() {
    let cat = Catalog {
        slots: vec![Some(desc(
            "t",
            0,
            vec![
                (0, item(Some("t"), None, ItemKind::Module { children: vec![1] })),
                (
                    1,
                    item(
                        Some("S"),
                        None,
                        ItemKind::Struct {
                            kind: StructKind::Plain { fields: vec![2] },
                        },
                    ),
                ),
                (2, item(Some("f"), None, ItemKind::StructField)),
            ],
        ))],
    };
    assert!(cat.check_wf());
}

#[test]
fn check_wf_rejects_empty_and_missing_target() {
    let empty = Catalog { slots: vec![] };
    assert!(!empty.check_wf());
    let hole = Catalog { slots: vec![None] };
    assert!(!hole.check_wf());
}

#[test]
fn check_wf_rejects_missing_root_item() {
    let cat = Catalog {
        slots: vec![Some(desc(
            "t",
            42,
            vec![(0, item(None, None, ItemKind::Module { children: vec![] }))],
        ))],
    };
    assert!(!cat.check_wf());
}

#[test]
fn check_wf_rejects_reexport_without_target() {
    let cat = Catalog {
        slots: vec![Some(desc(
            "t",
            0,
            vec![
                (0, item(Some("t"), None, ItemKind::Module { children: vec![1] })),
                (
                    1,
                    item(
                        None,
                        None,
                        ItemKind::Use {
                            source: "x::*".to_string(),
                            id: None,
                        },
                    ),
                ),
            ],
        ))],
    };
    assert!(!cat.check_wf());
}

#[test]
fn check_wf_rejects_nameless_struct_and_dangling_field() {
    let nameless = Catalog {
        slots: vec![Some(desc(
            "t",
            0,
            vec![
                (0, item(Some("t"), None, ItemKind::Module { children: vec![1] })),
                (1, item(None, None, ItemKind::Struct { kind: StructKind::Unit })),
            ],
        ))],
    };
    assert!(!nameless.check_wf());
    let dangling = Catalog {
        slots: vec![Some(desc(
            "t",
            0,
            vec![
                (0, item(Some("t"), None, ItemKind::Module { children: vec![1] })),
                (
                    1,
                    item(
                        Some("S"),
                        None,
                        ItemKind::Struct {
                            kind: StructKind::Plain { fields: vec![77] },
                        },
                    ),
                ),
            ],
        ))],
    };
    assert!(!dangling.check_wf());
}
