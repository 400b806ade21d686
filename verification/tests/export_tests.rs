use doorstop_reqif::ExportError;
use doorstop_reqif::assembly::{ExportContainer, complete, requirement_record_of};
use doorstop_reqif::document::{Document, DocumentIndex, Item};
use doorstop_reqif::export::{
    create_specification, create_specification_named, export_all, export_document,
};
use doorstop_reqif::hierarchy::HierarchyNode;

const NOW: &str = "2024-01-01T00:00:00.000+00:00";

fn item(id: &str, level: &str, depth: usize) -> Item {
    Item {
        id: id.to_string(),
        header: Some(format!("{} header", id)),
        text: Some(format!("{} text", id)),
        level: level.to_string(),
        depth,
    }
}

fn document(prefix: &str, items: Vec<Item>) -> Document {
    Document { prefix: prefix.to_string(), items_sorted_by_level: items }
}

fn container() -> ExportContainer {
    ExportContainer::new(
        "123456789A".to_string(),
        NOW.to_string(),
        "123456789A".to_string(),
        "Doorstop".to_string(),
        "Doorstop".to_string(),
        "Generated req if".to_string(),
    )
}

fn flatten_ids(forest: &Vec<HierarchyNode>, out: &mut Vec<String>) {
    for node in forest {
        out.push(node.object_ref.clone());
        flatten_ids(&node.children, out);
    }
}

#[test]
fn example_scenario_builds_expected_tree_and_pool() {
    let doc = document(
        "REQ",
        vec![item("REQ1", "1", 0), item("REQ2", "1.1", 1), item("REQ3", "2", 0)],
    );
    let mut out = container();
    create_specification(&doc, &mut out, &NOW.to_string()).expect("assembly succeeds");

    assert_eq!(out.specifications.len(), 1);
    let spec = &out.specifications[0];
    assert_eq!(spec.id, "REQ");
    assert_eq!(spec.name, "REQ Specification");
    assert_eq!(spec.last_change, NOW);

    assert_eq!(spec.root_children.len(), 2);
    assert_eq!(spec.root_children[0].object_ref, "REQ1");
    assert_eq!(spec.root_children[1].object_ref, "REQ3");
    assert_eq!(spec.root_children[0].children.len(), 1);
    assert_eq!(spec.root_children[0].children[0].object_ref, "REQ2");
    assert_eq!(spec.root_children[0].children[0].identifier, "1.1");

    assert_eq!(out.requirement_pool.len(), 3);
    let mut ids: Vec<String> = Vec::new();
    flatten_ids(&spec.root_children, &mut ids);
    assert_eq!(ids, vec!["REQ1", "REQ2", "REQ3"]);
    for id in ids {
        assert!(out.requirement_pool.iter().any(|r| r.id == id));
    }
}

#[test]
fn failure_scenario_reports_offending_item() {
    let doc = document("REQ", vec![item("A", "2", 1)]);
    let mut out = container();
    let r = create_specification(&doc, &mut out, &NOW.to_string());
    match r {
        Err(ExportError::MissingAncestor { item_id, level }) => {
            assert_eq!(item_id, "A");
            assert_eq!(level, "2");
        },
        _ => panic!("expected a missing-ancestor error"),
    }
    assert!(out.specifications.is_empty());
    assert!(out.requirement_pool.is_empty());
}

#[test]
fn failure_keeps_records_of_earlier_items_only() {
    let doc = document(
        "REQ",
        vec![item("R1", "1", 0), item("R2", "1.1.1", 2), item("R3", "2", 0)],
    );
    let mut out = container();
    let r = create_specification(&doc, &mut out, &NOW.to_string());
    match r {
        Err(ExportError::MissingAncestor { item_id, level }) => {
            assert_eq!(item_id, "R2");
            assert_eq!(level, "1.1.1");
        },
        _ => panic!("expected a missing-ancestor error"),
    }
    assert!(out.specifications.is_empty());
    assert_eq!(out.requirement_pool.len(), 1);
    assert_eq!(out.requirement_pool[0].id, "R1");
}

#[test]
fn absent_header_and_text_register_as_empty_strings() {
    let bare = Item {
        id: "REQ9".to_string(),
        header: None,
        text: None,
        level: "1".to_string(),
        depth: 0,
    };
    let record = requirement_record_of(&bare, &NOW.to_string());
    assert_eq!(record.id, "REQ9");
    assert_eq!(record.header, "");
    assert_eq!(record.text, "");
    assert_eq!(record.last_change, NOW);

    let doc = document("REQ", vec![bare]);
    let mut out = container();
    create_specification(&doc, &mut out, &NOW.to_string()).expect("assembly succeeds");
    assert_eq!(out.requirement_pool.len(), 1);
    assert_eq!(out.requirement_pool[0].header, "");
    assert_eq!(out.requirement_pool[0].text, "");
}

#[test]
fn present_header_and_text_are_taken_over() {
    let doc = document("REQ", vec![item("REQ1", "1", 0)]);
    let mut out = container();
    create_specification(&doc, &mut out, &NOW.to_string()).expect("assembly succeeds");
    assert_eq!(out.requirement_pool[0].header, "REQ1 header");
    assert_eq!(out.requirement_pool[0].text, "REQ1 text");
}

#[test]
fn empty_document_gives_empty_specification_without_error() {
    let doc = document("EMPTY", vec![]);
    let mut out = container();
    create_specification(&doc, &mut out, &NOW.to_string()).expect("empty document succeeds");
    assert_eq!(out.specifications.len(), 1);
    assert!(out.specifications[0].root_children.is_empty());
    assert!(out.requirement_pool.is_empty());
}

#[test]
fn explicit_id_and_name_bypass_prefix_naming() {
    let doc = document("REQ", vec![item("REQ1", "1", 0)]);
    let mut out = container();
    create_specification_named(
        &doc,
        &mut out,
        "SYS-01".to_string(),
        "System Spec".to_string(),
        &NOW.to_string(),
    )
    .expect("assembly succeeds");
    assert_eq!(out.specifications.len(), 1);
    assert_eq!(out.specifications[0].id, "SYS-01");
    assert_eq!(out.specifications[0].name, "System Spec");
}

#[test]
fn complete_runs_into_existing_specification() {
    let doc = document("REQ", vec![item("REQ1", "1", 0), item("REQ2", "1.1", 1)]);
    let mut out = container();
    let mut spec = out.build_module_specification(
        "REQ".to_string(),
        NOW.to_string(),
        "REQ Specification".to_string(),
    );
    complete(&doc, &mut out, &mut spec, &NOW.to_string()).expect("assembly succeeds");
    assert_eq!(spec.root_children.len(), 1);
    assert_eq!(spec.root_children[0].children.len(), 1);
    assert_eq!(out.requirement_pool.len(), 2);
    // `complete` itself does not append the specification.
    assert!(out.specifications.is_empty());
}

#[test]
fn resolve_one_finds_exact_prefix() {
    let mut index = DocumentIndex::new();
    assert!(index.add_document(document("SYS", vec![item("SYS1", "1", 0)])));
    assert!(index.add_document(document("REQ", vec![item("REQ1", "1", 0)])));
    let found = index.resolve_one(&"REQ".to_string()).expect("prefix exists");
    assert_eq!(found.prefix, "REQ");
    assert_eq!(found.items_sorted_by_level.len(), 1);
}

#[test]
fn resolve_one_reports_missing_prefix() {
    let mut index = DocumentIndex::new();
    assert!(index.add_document(document("SYS", vec![])));
    match index.resolve_one(&"HLR".to_string()) {
        Err(ExportError::NotFound { prefix }) => assert_eq!(prefix, "HLR"),
        _ => panic!("expected not-found"),
    }
}

#[test]
fn duplicate_prefix_is_not_registered() {
    let mut index = DocumentIndex::new();
    assert!(index.add_document(document("SYS", vec![])));
    assert!(!index.add_document(document("SYS", vec![item("S1", "1", 0)])));
    assert_eq!(index.resolve_all().len(), 1);
    assert!(index.resolve_all()[0].items_sorted_by_level.is_empty());
}

#[test]
fn export_document_exports_only_the_named_document() {
    let mut index = DocumentIndex::new();
    assert!(index.add_document(document("SYS", vec![item("SYS1", "1", 0)])));
    assert!(index.add_document(document("REQ", vec![item("REQ1", "1", 0)])));
    let mut out = container();
    export_document(&index, &"SYS".to_string(), &mut out, &NOW.to_string())
        .expect("prefix exists");
    assert_eq!(out.specifications.len(), 1);
    assert_eq!(out.specifications[0].id, "SYS");
    assert_eq!(out.requirement_pool.len(), 1);
}

#[test]
fn export_document_missing_prefix_leaves_container_untouched() {
    let index = DocumentIndex::new();
    let mut out = container();
    let r = export_document(&index, &"REQ".to_string(), &mut out, &NOW.to_string());
    assert!(matches!(r, Err(ExportError::NotFound { .. })));
    assert!(out.specifications.is_empty());
    assert!(out.requirement_pool.is_empty());
}

#[test]
fn export_all_gives_one_specification_per_document_sharing_one_pool() {
    let mut index = DocumentIndex::new();
    assert!(index.add_document(document(
        "SYS",
        vec![item("SYS1", "1", 0), item("SYS2", "1.1", 1)],
    )));
    assert!(index.add_document(document("REQ", vec![item("REQ1", "1", 0)])));
    let mut out = container();
    export_all(&index, &mut out, &NOW.to_string()).expect("all documents valid");

    assert_eq!(out.specifications.len(), 2);
    assert_eq!(out.specifications[0].id, "SYS");
    assert_eq!(out.specifications[0].name, "SYS Specification");
    assert_eq!(out.specifications[1].id, "REQ");
    assert_eq!(out.specifications[1].name, "REQ Specification");
    assert_eq!(out.specifications[0].root_children.len(), 1);
    assert_eq!(out.specifications[0].root_children[0].children.len(), 1);
    assert_eq!(out.specifications[1].root_children.len(), 1);
    assert_eq!(out.requirement_pool.len(), 3);
    assert!(out.requirement_pool.iter().any(|r| r.id == "SYS1"));
    assert!(out.requirement_pool.iter().any(|r| r.id == "SYS2"));
    assert!(out.requirement_pool.iter().any(|r| r.id == "REQ1"));
}

#[test]
fn export_all_stops_at_first_failing_document() {
    let mut index = DocumentIndex::new();
    assert!(index.add_document(document("OK", vec![item("OK1", "1", 0)])));
    assert!(index.add_document(document("BAD", vec![item("BAD1", "1.1", 1)])));
    assert!(index.add_document(document("LATER", vec![item("L1", "1", 0)])));
    let mut out = container();
    let r = export_all(&index, &mut out, &NOW.to_string());
    match r {
        Err(ExportError::MissingAncestor { item_id, level }) => {
            assert_eq!(item_id, "BAD1");
            assert_eq!(level, "1.1");
        },
        _ => panic!("expected a missing-ancestor error"),
    }
    // The document before the failure keeps its specification; the failing
    // one and everything after it contribute none.
    assert_eq!(out.specifications.len(), 1);
    assert_eq!(out.specifications[0].id, "OK");
    assert_eq!(out.requirement_pool.len(), 1);
    assert_eq!(out.requirement_pool[0].id, "OK1");
}

#[test]
fn container_header_fields_are_kept() {
    let out = container();
    assert_eq!(out.identifier, "123456789A");
    assert_eq!(out.created_at, NOW);
    assert_eq!(out.repository_id, "123456789A");
    assert_eq!(out.tool_id, "Doorstop");
    assert_eq!(out.source_tool_id, "Doorstop");
    assert_eq!(out.title, "Generated req if");
}
