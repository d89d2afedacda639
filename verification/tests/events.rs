use flexui::events::{click_target, edit_input_text, handle_keydown, update_hover};
use flexui::tree::NodeTree;

fn chain_tree() -> NodeTree {
    // 0 <- 1 <- 2 <- 3, and 4 under 0
    let mut t = NodeTree::new();
    for _ in 0..5 {
        t.add_node();
    }
    t.set_parent(1, 0);
    t.set_parent(2, 1);
    t.set_parent(3, 2);
    t.set_parent(4, 0);
    t
}

#[test]
fn typing_into_inputs() {
    assert_eq!(edit_input_text("ab", "text", "c"), "abc");
    assert_eq!(edit_input_text("ab", "text", "Backspace"), "a");
    assert_eq!(edit_input_text("", "text", "Backspace"), "");
    assert_eq!(edit_input_text("12", "int64", "x"), "12");
    assert_eq!(edit_input_text("12", "int64", "3"), "123");
    assert_eq!(edit_input_text("", "int64", "-"), "-");
    assert_eq!(edit_input_text("1", "int64", "-"), "1");
    assert_eq!(edit_input_text("1", "float64", "."), "1.");
    assert_eq!(edit_input_text("1", "int64", "."), "1");
    assert_eq!(edit_input_text("a", "text", "Shift"), "a");
    assert_eq!(edit_input_text("a", "text", "é"), "a");
}

#[test]
fn keydown_reports_changes_only() {
    assert_eq!(handle_keydown(Some("ab".to_string()), None, "c"), Some("abc".to_string()));
    assert_eq!(handle_keydown(None, Some("int64".to_string()), "x"), None);
    assert_eq!(handle_keydown(None, None, "Backspace"), None);
    assert_eq!(handle_keydown(None, None, "q"), Some("q".to_string()));
}

#[test]
fn clicks_bubble_to_a_handler() {
    let t = chain_tree();
    let clickable = vec![false, true, false, false, false];
    let is_input = vec![false, false, true, false, false];
    assert_eq!(click_target(&t, &clickable, &is_input, 3), (Some(1), Some(2)));
    assert_eq!(click_target(&t, &clickable, &is_input, 4), (None, None));
    let is_input = vec![true, true, false, true, false];
    assert_eq!(click_target(&t, &clickable, &is_input, 3), (Some(1), Some(3)));
    assert_eq!(click_target(&t, &vec![false; 5], &is_input, 3), (None, Some(0)));
}

#[test]
fn hover_moves_along_paths() {
    let t = chain_tree();
    let mut hovered = vec![false; 5];
    let (chain, changed) = update_hover(&t, &mut hovered, None, &vec![], Some(3)).unwrap();
    assert_eq!(chain, vec![0, 1, 2, 3]);
    assert!(changed);
    assert_eq!(hovered, vec![true, true, true, true, false]);

    let (chain2, changed) = update_hover(&t, &mut hovered, Some(3), &chain, Some(4)).unwrap();
    assert_eq!(chain2, vec![0, 4]);
    assert!(changed);
    assert_eq!(hovered, vec![true, false, false, false, true]);

    assert!(update_hover(&t, &mut hovered, Some(4), &chain2, Some(4)).is_none());

    let (chain3, changed) = update_hover(&t, &mut hovered, Some(4), &chain2, None).unwrap();
    assert!(chain3.is_empty());
    assert!(changed);
    assert_eq!(hovered, vec![false; 5]);
}
