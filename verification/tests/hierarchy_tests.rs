use doorstop_reqif::ExportError;
use doorstop_reqif::hierarchy::{HierarchyNode, add_spec_hierarchy};

fn leaf(identifier: &str, object_ref: &str) -> HierarchyNode {
    HierarchyNode {
        identifier: identifier.to_string(),
        last_change: "2024-01-01T00:00:00.000+00:00".to_string(),
        object_ref: object_ref.to_string(),
        children: Vec::new(),
    }
}

fn flatten_ids(forest: &Vec<HierarchyNode>, out: &mut Vec<String>) {
    for node in forest {
        out.push(node.object_ref.clone());
        flatten_ids(&node.children, out);
    }
}

#[test]
fn depth_zero_appends_to_root() {
    let mut forest: Vec<HierarchyNode> = Vec::new();
    for i in 0..4 {
        let r = add_spec_hierarchy(&mut forest, leaf("1", &format!("REQ00{}", i)), 0);
        assert!(r.is_ok());
    }
    assert_eq!(forest.len(), 4);
}

#[test]
fn depth_jump_is_rejected_and_leaves_forest_unchanged() {
    let mut forest: Vec<HierarchyNode> = Vec::new();
    add_spec_hierarchy(&mut forest, leaf("1", "REQ001"), 0).expect("depth 0 always attaches");
    let r = add_spec_hierarchy(&mut forest, leaf("1.1.1", "REQ002"), 2);
    match r {
        Err(ExportError::MissingAncestor { item_id, level }) => {
            assert_eq!(item_id, "REQ002");
            assert_eq!(level, "1.1.1");
        },
        _ => panic!("expected a missing-ancestor error"),
    }
    assert_eq!(forest.len(), 1);
    assert!(forest[0].children.is_empty());
}

#[test]
fn two_children_under_first_node() {
    let mut forest: Vec<HierarchyNode> = Vec::new();
    add_spec_hierarchy(&mut forest, leaf("1", "REQ001"), 0).expect("attach");
    add_spec_hierarchy(&mut forest, leaf("1.1", "REQ002"), 1).expect("attach");
    add_spec_hierarchy(&mut forest, leaf("1.2", "REQ003"), 1).expect("attach");
    assert_eq!(forest.len(), 1);
    assert_eq!(forest[0].children.len(), 2);
    assert_eq!(forest[0].children[0].object_ref, "REQ002");
    assert_eq!(forest[0].children[1].object_ref, "REQ003");
}

#[test]
fn parent_is_most_recent_node_one_level_up() {
    // Depths 0, 1, 2, 1: the last node's parent is the node of the most
    // recent depth-0 item, not the deeper ones inserted in between.
    let mut forest: Vec<HierarchyNode> = Vec::new();
    add_spec_hierarchy(&mut forest, leaf("1", "A"), 0).expect("attach");
    add_spec_hierarchy(&mut forest, leaf("1.1", "B"), 1).expect("attach");
    add_spec_hierarchy(&mut forest, leaf("1.1.1", "C"), 2).expect("attach");
    add_spec_hierarchy(&mut forest, leaf("1.2", "D"), 1).expect("attach");
    assert_eq!(forest.len(), 1);
    assert_eq!(forest[0].object_ref, "A");
    assert_eq!(forest[0].children.len(), 2);
    assert_eq!(forest[0].children[0].object_ref, "B");
    assert_eq!(forest[0].children[0].children[0].object_ref, "C");
    assert_eq!(forest[0].children[1].object_ref, "D");
    assert!(forest[0].children[1].children.is_empty());
}

#[test]
fn depth_first_traversal_recovers_insertion_order() {
    let mut forest: Vec<HierarchyNode> = Vec::new();
    let plan = [("1", "A", 0), ("1.1", "B", 1), ("1.1.1", "C", 2), ("1.2", "D", 1), ("2", "E", 0)];
    for (level, id, depth) in plan.iter() {
        add_spec_hierarchy(&mut forest, leaf(level, id), *depth).expect("attach");
    }
    let mut ids: Vec<String> = Vec::new();
    flatten_ids(&forest, &mut ids);
    assert_eq!(ids, vec!["A", "B", "C", "D", "E"]);
}

#[test]
fn sibling_after_rejection_still_rejected_state_unchanged() {
    let mut forest: Vec<HierarchyNode> = Vec::new();
    let r = add_spec_hierarchy(&mut forest, leaf("2", "A"), 1);
    assert!(r.is_err());
    assert!(forest.is_empty());
}
