use std::rc::Rc;
use syntax_tree::info::FontStyle;
use syntax_tree::{Node, Tree};

fn leaf(text: &str) -> Node<FontStyle> {
    Node::new_leaf(String::from(text))
}

#[test]
fn every_node_gets_an_identifier_of_its_own() {
    let a: Node<()> = Node::new();
    let b: Node<()> = Node::new();
    assert_eq!(a.id().len(), 36);
    assert_eq!(a.id().matches('-').count(), 4);
    assert_ne!(a.id(), b.id());
}

#[test]
fn a_new_leaf_holds_its_text_and_nothing_else() {
    let node = leaf("Hello");
    assert!(node.is_leaf());
    assert_eq!(node.child_count(), 0);
    assert_eq!(node.length(), 5);
    assert_eq!(node.text(), "Hello");
    assert_eq!(node.bytes(), b"Hello".to_vec());
    assert_eq!(node.infos().len(), 0);
    assert!(node.infos().is_empty());
    assert!(node.children().is_empty());
}

#[test]
fn a_new_node_is_an_empty_leaf() {
    let node: Node<FontStyle> = Node::new();
    assert!(node.is_leaf());
    assert_eq!(node.length(), 0);
    assert_eq!(node.text(), "");
}

#[test]
fn children_make_an_inner_node_that_covers_their_text() {
    let mut root = Node::new_leaf(String::from("gone"));
    root.add_child(leaf("Hello "));
    root.add_child(leaf("World"));
    assert!(!root.is_leaf());
    assert_eq!(root.child_count(), 2);
    assert_eq!(root.children().len(), 2);
    assert_eq!(root.children()[1].text(), "World");
    assert_eq!(root.length(), 11);
    assert_eq!(root.text(), "Hello World");
}

#[test]
fn attributes_are_held_once() {
    let mut node = leaf("Hello");
    node.add_info(Rc::new(FontStyle::Bold));
    node.add_info(Rc::new(FontStyle::Italic));
    node.add_info(Rc::new(FontStyle::Bold));
    assert_eq!(node.infos().len(), 2);
    assert!(node.has_info(&FontStyle::Bold));
    assert!(node.has_info(&FontStyle::Italic));
    assert!(!node.has_info(&FontStyle::Underline));
    assert_eq!(**node.infos().get(0), FontStyle::Bold);
    assert_eq!(**node.infos().get(1), FontStyle::Italic);
    node.clear_infos();
    assert!(node.infos().is_empty());
    assert!(!node.has_info(&FontStyle::Bold));
}

#[test]
fn attributes_are_listed_in_ascending_order() {
    let mut node = leaf("Hello");
    node.add_info(Rc::new(FontStyle::Underline));
    node.add_info(Rc::new(FontStyle::Bold));
    node.add_info(Rc::new(FontStyle::Italic));
    let sorted: Vec<FontStyle> = node.sorted_infos().iter().map(|a| **a).collect();
    assert_eq!(sorted, vec![FontStyle::Bold, FontStyle::Italic, FontStyle::Underline]);
    assert_eq!(node.dump(), "|-- 'Hello' [Bold, Italic, Underline]\n");
}

#[test]
fn a_leaf_that_is_covered_takes_the_attribute() {
    let mut node = leaf("Hello");
    let pieces = node.set(0, 5, Rc::new(FontStyle::Bold));
    assert!(pieces.is_none());
    assert!(node.is_leaf());
    assert!(node.has_info(&FontStyle::Bold));
    assert_eq!(node.text(), "Hello");
}

#[test]
fn a_plain_leaf_that_is_no_root_hands_its_pieces_out() {
    let mut node = leaf("Hello");
    let pieces = node.set(1, 3, Rc::new(FontStyle::Bold)).unwrap();
    let texts: Vec<String> = pieces.iter().map(|p| p.text()).collect();
    assert_eq!(texts, vec!["H", "el", "lo"]);
    assert!(!pieces[0].has_info(&FontStyle::Bold));
    assert!(pieces[1].has_info(&FontStyle::Bold));
    assert!(!pieces[2].has_info(&FontStyle::Bold));
    assert_eq!(node.text(), "");

    let mut node = leaf("Hello");
    let pieces = node.set(0, 3, Rc::new(FontStyle::Bold)).unwrap();
    let texts: Vec<String> = pieces.iter().map(|p| p.text()).collect();
    assert_eq!(texts, vec!["Hel", "lo"]);
    assert!(pieces[0].has_info(&FontStyle::Bold));

    let mut node = leaf("Hello");
    let pieces = node.set(3, 5, Rc::new(FontStyle::Bold)).unwrap();
    let texts: Vec<String> = pieces.iter().map(|p| p.text()).collect();
    assert_eq!(texts, vec!["Hel", "lo"]);
    assert!(pieces[1].has_info(&FontStyle::Bold));
}

#[test]
fn a_leaf_with_attributes_keeps_its_pieces() {
    let mut node = leaf("Hello");
    node.add_info(Rc::new(FontStyle::Italic));
    let pieces = node.set(1, 3, Rc::new(FontStyle::Bold));
    assert!(pieces.is_none());
    assert_eq!(
        node.dump(),
        "|-- 'Hello' [Italic]\n    |-- 'H' []\n    |-- 'el' [Bold]\n    |-- 'lo' []\n"
    );
}

#[test]
fn a_node_that_carries_the_attribute_is_left_alone() {
    let mut node = leaf("Hello");
    node.add_info(Rc::new(FontStyle::Bold));
    let before = node.dump();
    assert!(node.set(1, 3, Rc::new(FontStyle::Bold)).is_none());
    assert_eq!(node.dump(), before);
}

#[test]
fn unset_on_a_node_keeps_the_attribute_outside_the_range() {
    let mut node = leaf("Hello");
    node.add_info(Rc::new(FontStyle::Bold));
    node.unset(1, 3, Rc::new(FontStyle::Bold));
    assert_eq!(
        node.dump(),
        "|-- 'Hello' []\n    |-- 'H' [Bold]\n    |-- 'el' []\n    |-- 'lo' [Bold]\n"
    );
}

#[test]
fn removing_an_attribute_makes_a_node_give_way() {
    let mut node = leaf("Hello");
    node.add_info(Rc::new(FontStyle::Bold));
    let swap = node.remove_info(0, 5, Rc::new(FontStyle::Bold), true).unwrap();
    assert_eq!(swap.len(), 1);
    assert_eq!(swap[0].text(), "Hello");
    assert!(swap[0].infos().is_empty());
    assert_eq!(node.text(), "");

    let mut node = leaf("Hello");
    node.add_info(Rc::new(FontStyle::Bold));
    node.add_info(Rc::new(FontStyle::Italic));
    assert!(node.remove_info(0, 5, Rc::new(FontStyle::Bold), true).is_none());
    assert!(!node.has_info(&FontStyle::Bold));
    assert!(node.has_info(&FontStyle::Italic));
    assert_eq!(node.text(), "Hello");
}

#[test]
fn an_inner_node_is_left_alone_without_recursion() {
    let mut node = leaf("Hello");
    node.add_info(Rc::new(FontStyle::Italic));
    node.set(1, 3, Rc::new(FontStyle::Bold));
    let before = node.dump();
    assert!(node.remove_info(0, 5, Rc::new(FontStyle::Bold), false).is_none());
    assert_eq!(node.dump(), before);
}

#[test]
fn removing_text_says_what_became_of_the_node() {
    let mut node = leaf("Hello");
    assert_eq!(node.remove(1, 2), (false, false));
    assert_eq!(node.text(), "Hlo");
    assert_eq!(node.remove(0, 3), (true, false));
    assert_eq!(node.text(), "");

    let mut node = leaf("Hello");
    node.add_info(Rc::new(FontStyle::Italic));
    node.set(0, 2, Rc::new(FontStyle::Bold));
    assert_eq!(node.remove(0, 2), (false, true));
    assert!(node.is_leaf());
    assert_eq!(node.dump(), "|-- 'llo' [Italic]\n");
}

#[test]
fn removing_takes_no_more_than_there_is() {
    let mut node = leaf("Hello");
    node.remove(3, 40);
    assert_eq!(node.text(), "Hel");
    node.remove(3, 1);
    assert_eq!(node.text(), "Hel");
    node.remove(9, 1);
    assert_eq!(node.text(), "Hel");
    node.remove(1, 0);
    assert_eq!(node.text(), "Hel");
    node.remove(0, usize::MAX);
    assert_eq!(node.text(), "");
}

#[test]
fn the_longest_run_of_siblings_is_found() {
    let mut root: Node<FontStyle> = Node::new();
    let mut a = leaf("a");
    a.add_info(Rc::new(FontStyle::Italic));
    let mut b = leaf("b");
    b.add_info(Rc::new(FontStyle::Italic));
    b.add_info(Rc::new(FontStyle::Bold));
    let mut c = leaf("c");
    c.add_info(Rc::new(FontStyle::Bold));
    let mut d = leaf("d");
    d.add_info(Rc::new(FontStyle::Bold));
    root.add_child(a);
    root.add_child(b);
    root.add_child(c);
    root.add_child(d);
    let (attr, places) = root.find_max_similar_neighbors().unwrap();
    assert_eq!(*attr, FontStyle::Bold);
    assert_eq!(places, vec![1, 2, 3]);
}

#[test]
fn of_runs_of_one_length_the_first_is_found() {
    let mut root: Node<FontStyle> = Node::new();
    let mut a = leaf("a");
    a.add_info(Rc::new(FontStyle::Italic));
    let mut b = leaf("b");
    b.add_info(Rc::new(FontStyle::Bold));
    b.add_info(Rc::new(FontStyle::Italic));
    let mut c = leaf("c");
    c.add_info(Rc::new(FontStyle::Bold));
    root.add_child(a);
    root.add_child(b);
    root.add_child(c);
    let (attr, places) = root.find_max_similar_neighbors().unwrap();
    assert_eq!(*attr, FontStyle::Italic);
    assert_eq!(places, vec![0, 1]);
}

#[test]
fn no_run_is_found_where_no_neighbours_share_an_attribute() {
    let mut root: Node<FontStyle> = Node::new();
    let mut a = leaf("a");
    a.add_info(Rc::new(FontStyle::Italic));
    let mut b = leaf("b");
    b.add_info(Rc::new(FontStyle::Bold));
    root.add_child(a);
    root.add_child(b);
    root.add_child(leaf("c"));
    assert!(root.find_max_similar_neighbors().is_none());
    assert!(leaf("x").find_max_similar_neighbors().is_none());
}

#[test]
fn text_is_counted_in_bytes() {
    let mut tree: Tree<FontStyle> = Tree::new("héllo");
    assert_eq!(tree.length(), 6);
    tree.insert(3, 'ü');
    assert_eq!(tree.length(), 8);
    assert_eq!(tree.get_root().text(), "héüllo");
    tree.push('ß');
    assert_eq!(tree.get_root().text(), "héülloß");
    tree.set(1, 3, FontStyle::Bold);
    assert_eq!(tree.dump(), "|-- 'héülloß' []\n    |-- 'h' []\n    |-- 'é' [Bold]\n    |-- 'ülloß' []\n");
}

#[test]
fn half_a_character_reads_as_a_replacement() {
    let mut tree: Tree<FontStyle> = Tree::new("é");
    tree.set(0, 1, FontStyle::Bold);
    assert_eq!(tree.get_root().text(), "é");
    assert_eq!(tree.get_root().bytes(), "é".as_bytes().to_vec());
    assert_eq!(tree.get_root().children()[0].text(), "\u{fffd}");
    assert_eq!(tree.get_root().children()[0].bytes(), vec![0xc3]);
}

#[test]
fn regrouping_groups_the_longest_run_and_joins_plain_leaves() {
    let mut root: Node<FontStyle> = Node::new();
    let mut a = leaf("a");
    a.add_info(Rc::new(FontStyle::Italic));
    let mut b = leaf("b");
    b.add_info(Rc::new(FontStyle::Italic));
    b.add_info(Rc::new(FontStyle::Bold));
    let mut c = leaf("c");
    c.add_info(Rc::new(FontStyle::Bold));
    let mut d = leaf("d");
    d.add_info(Rc::new(FontStyle::Bold));
    root.add_child(a);
    root.add_child(b);
    root.add_child(c);
    root.add_child(d);
    root.regroup_neighbors();
    assert_eq!(root.text(), "abcd");
    assert_eq!(root.child_count(), 2);
    let first = &root.children()[0];
    assert!(first.is_leaf());
    assert_eq!(first.text(), "a");
    assert!(first.has_info(&FontStyle::Italic));
    let group = &root.children()[1];
    assert_eq!(group.infos().len(), 1);
    assert!(group.has_info(&FontStyle::Bold));
    assert_eq!(group.child_count(), 2);
    assert_eq!(group.children()[0].text(), "b");
    assert!(group.children()[0].has_info(&FontStyle::Italic));
    assert!(!group.children()[0].has_info(&FontStyle::Bold));
    assert_eq!(group.children()[1].text(), "cd");
    assert!(group.children()[1].is_leaf());
    assert!(group.children()[1].infos().is_empty());
}

#[test]
fn regrouping_makes_a_node_of_plain_leaves_a_leaf() {
    let mut node: Node<FontStyle> = Node::new();
    node.add_info(Rc::new(FontStyle::Underline));
    node.add_child(leaf("ab"));
    node.add_child(leaf("cd"));
    let id = node.id().clone();
    node.regroup_neighbors();
    assert!(node.is_leaf());
    assert_eq!(node.text(), "abcd");
    assert!(node.has_info(&FontStyle::Underline));
    assert_eq!(*node.id(), id);
}

#[test]
fn regrouping_leaves_a_leaf_as_it_is() {
    let mut node = leaf("abc");
    node.add_info(Rc::new(FontStyle::Bold));
    node.regroup_neighbors();
    assert!(node.is_leaf());
    assert_eq!(node.text(), "abc");
    assert!(node.has_info(&FontStyle::Bold));
}

#[test]
fn regrouping_lets_inner_nodes_without_attributes_give_way() {
    let mut inner: Node<FontStyle> = Node::new();
    let mut x = leaf("x");
    x.add_info(Rc::new(FontStyle::Bold));
    inner.add_child(x);
    inner.add_child(leaf("y"));
    let mut root: Node<FontStyle> = Node::new();
    root.add_info(Rc::new(FontStyle::Italic));
    root.add_child(inner);
    root.add_child(leaf("z"));
    root.regroup_neighbors();
    assert_eq!(root.child_count(), 2);
    assert_eq!(root.children()[0].text(), "x");
    assert!(root.children()[0].has_info(&FontStyle::Bold));
    assert_eq!(root.children()[1].text(), "yz");
    assert!(root.children()[1].is_leaf());
}
