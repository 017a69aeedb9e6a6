use std::cell::RefCell;
use std::rc::Rc;
use syntax_tree::change::{Event, Listeners};
use syntax_tree::info::FontStyle;
use syntax_tree::iterator::PreOrder;
use syntax_tree::render::{to_html, to_html_node};
use syntax_tree::{Node, Tree};

fn sample() -> Tree<FontStyle> {
    let mut tree = Tree::new("Hello World");
    tree.set(6, 11, FontStyle::Bold);
    tree.set(4, 7, FontStyle::Underline);
    tree
}

#[test]
fn a_walk_meets_the_nodes_in_pre_order_with_their_depths() {
    let tree = sample();
    let mut walk = tree.pre_order_iter();
    let mut seen = Vec::new();
    while let Some(item) = walk.next() {
        seen.push((item.node.text(), item.level));
    }
    assert_eq!(
        seen,
        vec![
            (String::from("Hello World"), 0),
            (String::from("Hell"), 1),
            (String::from("o "), 1),
            (String::from("World"), 1),
            (String::from("W"), 2),
            (String::from("orld"), 2),
        ]
    );
    assert!(walk.next().is_none());
}

#[test]
fn a_walk_of_a_leaf_meets_the_leaf_alone() {
    let leaf: Node<()> = Node::new_leaf(String::from("Hello"));
    let mut walk = PreOrder::new(&leaf);
    let first = walk.next().unwrap();
    assert_eq!(first.level, 0);
    assert_eq!(first.node.text(), "Hello");
    assert!(walk.next().is_none());
}

#[test]
fn the_leaves_come_in_the_order_of_the_text() {
    let tree = sample();
    let leaves = tree.leaf_iter();
    let texts: Vec<String> = leaves.iter().map(|item| item.node.text()).collect();
    assert_eq!(texts, vec!["Hell", "o ", "W", "orld"]);
    let levels: Vec<usize> = leaves.iter().map(|item| item.level).collect();
    assert_eq!(levels, vec![1, 1, 2, 2]);
    let whole: String = texts.concat();
    assert_eq!(whole, tree.get_root().text());
}

#[test]
fn html_puts_the_tags_of_each_node_around_what_it_covers() {
    let tree = sample();
    assert_eq!(
        to_html(&tree),
        "<p>Hell<u>o </u><strong><u>W</u>orld</strong></p>"
    );
    assert_eq!(to_html_node(&tree.get_root().children()[1]), "<u>o </u>");
}

#[test]
fn html_names_each_style_by_its_element() {
    let mut tree = Tree::new("x");
    tree.set(0, 1, FontStyle::Italic);
    assert_eq!(to_html(&tree), "<p><em>x</em></p>");
    assert_eq!(FontStyle::Bold.tag_name(), "strong");
    assert_eq!(FontStyle::Italic.tag_name(), "em");
    assert_eq!(FontStyle::Underline.tag_name(), "u");
}

#[test]
fn listeners_hear_of_the_changes_in_order() {
    let heard: Rc<RefCell<Vec<String>>> = Rc::new(RefCell::new(Vec::new()));
    let mut listeners: Listeners<Box<dyn Fn(&Event)>> = Listeners::new();
    let sink = Rc::clone(&heard);
    let first = listeners.add_listener(Box::new(move |event| {
        let line = match event {
            Event::NodeAdded { added_idx, .. } => format!("added {}", added_idx),
            Event::NodeRemoved { removed_idx, .. } => format!("removed {}", removed_idx),
            Event::AttributesChanged { .. } => String::from("attributes"),
            Event::TextChanged { .. } => String::from("text"),
        };
        sink.borrow_mut().push(line);
    }));
    assert_eq!(first, 0);

    let mut tree = Tree::new("Hello World");
    tree.set(2, 7, FontStyle::Bold);
    tree.push('!');
    tree.deliver(&listeners);
    assert_eq!(*heard.borrow(), vec!["added 0", "added 1", "added 2", "text"]);
    assert!(tree.take_events().is_empty());

    assert!(listeners.remove_listener(first).is_some());
    assert!(listeners.remove_listener(first).is_none());
    assert!(listeners.remove_listener(7).is_none());
    tree.push('?');
    tree.deliver(&listeners);
    assert_eq!(heard.borrow().len(), 4);
}

#[test]
fn handles_stay_when_a_listener_leaves() {
    let mut listeners: Listeners<Box<dyn Fn(&Event)>> = Listeners::new();
    let a = listeners.add_listener(Box::new(|_| {}));
    let b = listeners.add_listener(Box::new(|_| {}));
    assert_eq!((a, b), (0, 1));
    assert!(listeners.remove_listener(a).is_some());
    let c = listeners.add_listener(Box::new(|_| {}));
    assert_eq!(c, 2);
    assert!(listeners.remove_listener(b).is_some());
}
