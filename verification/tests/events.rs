use syntax_tree::change::Event;
use syntax_tree::info::FontStyle;
use syntax_tree::Tree;

#[test]
fn a_new_tree_has_no_changes_on_record() {
    let mut tree: Tree<FontStyle> = Tree::new("Hello World");
    assert!(tree.take_events().is_empty());
}

#[test]
fn setting_on_the_whole_leaf_changes_its_attributes() {
    let mut tree = Tree::new("Hello World");
    tree.set(0, 11, FontStyle::Bold);
    let root = tree.get_root().id().clone();
    let events = tree.take_events();
    assert_eq!(events.len(), 1);
    assert!(matches!(&events[0], Event::AttributesChanged { node } if *node == root));
    assert!(tree.take_events().is_empty());
}

#[test]
fn splitting_the_root_leaf_adds_its_pieces() {
    let mut tree = Tree::new("Hello World");
    tree.set(2, 7, FontStyle::Bold);
    let root = tree.get_root().id().clone();
    let events = tree.take_events();
    assert_eq!(events.len(), 3);
    for (at, event) in events.iter().enumerate() {
        assert!(
            matches!(event, Event::NodeAdded { parent, added_idx } if *parent == root && *added_idx == at)
        );
    }
}

#[test]
fn inserted_text_changes_the_leaf_that_takes_it() {
    let mut tree = Tree::new("Hello World");
    tree.set(2, 7, FontStyle::Bold);
    tree.take_events();
    tree.insert_str(7, "!!");
    let leaf = tree.get_root().children()[1].id().clone();
    let events = tree.take_events();
    assert_eq!(events.len(), 1);
    assert!(matches!(&events[0], Event::TextChanged { node } if *node == leaf));
    assert_eq!(tree.get_root().children()[1].text(), "llo W!!");
}

#[test]
fn pushed_text_changes_the_last_leaf() {
    let mut tree = Tree::new("Hello World");
    tree.set(2, 7, FontStyle::Bold);
    tree.take_events();
    tree.push('!');
    let leaf = tree.get_root().children()[2].id().clone();
    let events = tree.take_events();
    assert_eq!(events.len(), 1);
    assert!(matches!(&events[0], Event::TextChanged { node } if *node == leaf));
}

#[test]
fn setting_what_is_set_records_nothing() {
    let mut tree = Tree::new("Hello World");
    tree.set(2, 7, FontStyle::Bold);
    tree.take_events();
    let before = tree.dump();
    tree.set(2, 7, FontStyle::Bold);
    assert!(tree.take_events().is_empty());
    assert_eq!(tree.dump(), before);
}

#[test]
fn grouping_removes_and_adds_children() {
    let mut tree = Tree::new("Hello World");
    tree.set(4, 7, FontStyle::Underline);
    tree.set(4, 7, FontStyle::Bold);
    tree.take_events();
    tree.set(0, 4, FontStyle::Underline);
    let root = tree.get_root().id().clone();
    let events = tree.take_events();
    let removed = events
        .iter()
        .filter(|e| matches!(e, Event::NodeRemoved { parent, .. } if *parent == root))
        .count();
    let added = events
        .iter()
        .filter(|e| matches!(e, Event::NodeAdded { parent, .. } if *parent == root))
        .count();
    assert_eq!(removed, 3);
    assert_eq!(added, 2);
}
