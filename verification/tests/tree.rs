use flexui::tree::NodeTree;

fn tree_with(n: usize) -> NodeTree {
    let mut t = NodeTree::new();
    for _ in 0..n {
        t.add_node();
    }
    t
}

#[test]
fn add_node_numbers_slots() {
    let mut t = NodeTree::new();
    assert_eq!(t.add_node(), 0);
    assert_eq!(t.add_node(), 1);
    assert_eq!(t.node_count(), 2);
    let l = t.links(1);
    assert!(l.parent.is_none() && l.first_child.is_none() && l.next_sibling.is_none() && l.last_child.is_none());
}

#[test]
fn set_parent_appends() {
    let mut t = tree_with(4);
    t.set_parent(1, 0);
    t.set_parent(2, 0);
    t.set_parent(3, 0);
    assert_eq!(t.children_of(0), vec![1, 2, 3]);
    assert_eq!(t.links(0).first_child, Some(1));
    assert_eq!(t.links(0).last_child, Some(3));
    assert_eq!(t.links(2).next_sibling, Some(3));
    assert_eq!(t.links(3).parent, Some(0));
}

#[test]
fn set_parent_moves_between_parents() {
    let mut t = tree_with(4);
    t.set_parent(2, 0);
    t.set_parent(3, 0);
    t.set_parent(2, 1);
    assert_eq!(t.children_of(0), vec![3]);
    assert_eq!(t.children_of(1), vec![2]);
    assert_eq!(t.links(0).last_child, Some(3));
}

#[test]
fn out_of_range_ids_are_ignored() {
    let mut t = tree_with(2);
    t.set_parent(1, 7);
    t.set_parent(9, 0);
    t.remove_from_parent(5);
    assert_eq!(t.children_of(0), Vec::<u32>::new());
    assert!(t.links(1).parent.is_none());
    assert!(t.delete_node_recursive(8).is_empty());
}

#[test]
fn insert_after_places_child() {
    let mut t = tree_with(5);
    t.set_parent(1, 0);
    t.set_parent(2, 0);
    t.insert_after_node(3, 0, Some(1));
    t.insert_after_node(4, 0, None);
    assert_eq!(t.children_of(0), vec![4, 1, 3, 2]);
    t.insert_after_node(4, 0, Some(2));
    assert_eq!(t.children_of(0), vec![1, 3, 2, 4]);
    assert_eq!(t.links(0).last_child, Some(4));
    assert_eq!(t.links(0).first_child, Some(1));
}

#[test]
fn remove_from_parent_unlinks() {
    let mut t = tree_with(4);
    t.set_parent(1, 0);
    t.set_parent(2, 0);
    t.set_parent(3, 0);
    t.remove_from_parent(2);
    assert_eq!(t.children_of(0), vec![1, 3]);
    assert_eq!(t.links(1).next_sibling, Some(3));
    t.remove_from_parent(3);
    assert_eq!(t.links(0).last_child, Some(1));
    t.remove_from_parent(1);
    assert!(t.links(0).first_child.is_none() && t.links(0).last_child.is_none());
    assert!(t.links(1).parent.is_none() && t.links(1).next_sibling.is_none());
}

#[test]
fn delete_frees_subtree_deepest_first() {
    let mut t = tree_with(6);
    t.set_parent(1, 0);
    t.set_parent(2, 1);
    t.set_parent(3, 1);
    t.set_parent(4, 0);
    t.set_parent(5, 3);
    let freed = t.delete_node_recursive(1);
    assert_eq!(freed, vec![2, 5, 3, 1]);
    assert_eq!(t.children_of(0), vec![4]);
    // The last slot freed is the first reused.
    assert_eq!(t.add_node(), 1);
    assert_eq!(t.add_node(), 3);
    assert_eq!(t.add_node(), 5);
    assert_eq!(t.add_node(), 2);
    assert_eq!(t.add_node(), 6);
}

#[test]
fn clear_children_keeps_node() {
    let mut t = tree_with(5);
    t.set_parent(1, 0);
    t.set_parent(2, 0);
    t.set_parent(3, 2);
    t.set_parent(0, 4);
    let freed = t.clear_children(0);
    assert_eq!(freed, vec![1, 3, 2]);
    assert_eq!(t.children_of(0), Vec::<u32>::new());
    assert_eq!(t.links(0).parent, Some(4));
    assert_eq!(t.children_of(4), vec![0]);
}

#[test]
fn removing_and_reinserting_restores_order() {
    let mut t = tree_with(5);
    for c in 1..5 {
        t.set_parent(c, 0);
    }
    t.remove_from_parent(3);
    assert_eq!(t.children_of(0), vec![1, 2, 4]);
    t.insert_after_node(3, 0, Some(2));
    assert_eq!(t.children_of(0), vec![1, 2, 3, 4]);
    t.remove_from_parent(1);
    t.insert_after_node(1, 0, None);
    assert_eq!(t.children_of(0), vec![1, 2, 3, 4]);
}
