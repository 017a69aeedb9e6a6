use syntax_tree::info::FontStyle;
use syntax_tree::{Node, Tree};

/// Stops unless the tree below `node` is in canonical arrangement and no
/// node carries an attribute that `above` holds.
fn check<T: PartialEq + Copy>(node: &Node<T>, above: &[T], is_root: bool) {
    let own: Vec<T> = (0..node.infos().len()).map(|i| **node.infos().get(i)).collect();
    for attr in &own {
        assert!(!above.contains(attr), "an attribute is attached twice on one way down");
    }
    let kids = node.children();
    if !is_root {
        assert!(node.length() > 0, "a node below the root covers no text");
        assert!(node.is_leaf() || !own.is_empty(), "an inner node carries no attribute");
    }
    assert!(!(kids.len() == 1 && kids[0].is_leaf()), "a leaf is an only child");
    for pair in kids.windows(2) {
        let plain = |n: &Node<T>| n.is_leaf() && n.infos().is_empty();
        assert!(!(plain(&pair[0]) && plain(&pair[1])), "two plain leaves side by side");
        for i in 0..pair[0].infos().len() {
            assert!(
                !pair[1].has_info(&**pair[0].infos().get(i)),
                "two neighbours share an attribute"
            );
        }
    }
    let mut below = above.to_vec();
    below.extend(own);
    let mut text = Vec::new();
    for kid in kids {
        check(kid, &below, false);
        text.extend(kid.bytes());
    }
    if !kids.is_empty() {
        assert_eq!(text, node.bytes());
    }
}

/// The attributes of each byte of the text, in ascending order.
fn marks(node: &Node<FontStyle>, above: &[FontStyle], out: &mut Vec<Vec<FontStyle>>) {
    let mut mine = above.to_vec();
    for i in 0..node.infos().len() {
        mine.push(**node.infos().get(i));
    }
    mine.sort();
    if node.is_leaf() {
        for _ in 0..node.length() {
            out.push(mine.clone());
        }
    } else {
        for kid in node.children() {
            marks(kid, &mine, out);
        }
    }
}

fn marks_of(tree: &Tree<FontStyle>) -> Vec<Vec<FontStyle>> {
    let mut out = Vec::new();
    marks(tree.get_root(), &[], &mut out);
    out
}

fn busy() -> Tree<FontStyle> {
    let mut tree = Tree::new("Hello World");
    tree.set(4, 7, FontStyle::Underline);
    tree.set(6, 11, FontStyle::Bold);
    tree.set(6, 9, FontStyle::Underline);
    tree
}

#[test]
fn every_operation_leaves_the_tree_canonical() {
    let mut tree = Tree::new("Hello World, hello Verus");
    check(tree.get_root(), &[], true);
    tree.set(2, 7, FontStyle::Bold);
    check(tree.get_root(), &[], true);
    tree.set(5, 12, FontStyle::Italic);
    check(tree.get_root(), &[], true);
    tree.set(0, 24, FontStyle::Underline);
    check(tree.get_root(), &[], true);
    tree.unset(3, 20, &FontStyle::Underline);
    check(tree.get_root(), &[], true);
    tree.set(10, 18, FontStyle::Bold);
    check(tree.get_root(), &[], true);
    tree.remove(4, 9);
    check(tree.get_root(), &[], true);
    tree.insert_str(3, "---");
    check(tree.get_root(), &[], true);
    tree.unset(0, 5, &FontStyle::Bold);
    check(tree.get_root(), &[], true);
    tree.pop();
    check(tree.get_root(), &[], true);
    tree.unset(0, tree.length(), &FontStyle::Italic);
    check(tree.get_root(), &[], true);
    tree.remove(0, tree.length());
    check(tree.get_root(), &[], true);
    assert_eq!(tree.dump(), "|-- '' []\n");
}

#[test]
fn many_attributes_on_many_ranges_leave_the_tree_canonical() {
    let text = "abcdefghijklmnop";
    let mut tree: Tree<u8> = Tree::new(text);
    let mut seed: usize = 7;
    for round in 0..200 {
        seed = (seed * 31 + 11) % 1009;
        let start = seed % tree.length();
        seed = (seed * 31 + 11) % 1009;
        let end = start + 1 + seed % (tree.length() - start);
        let attr = (seed % 5) as u8;
        if round % 3 == 2 {
            tree.unset(start, end, &attr);
        } else {
            tree.set(start, end, attr);
        }
        check(tree.get_root(), &[], true);
        assert_eq!(tree.get_root().text(), text);
    }
}

#[test]
fn setting_and_unsetting_keep_the_text() {
    let mut tree = busy();
    assert_eq!(tree.get_root().text(), "Hello World");
    tree.unset(5, 10, &FontStyle::Underline);
    assert_eq!(tree.get_root().text(), "Hello World");
    assert_eq!(tree.length(), 11);
}

#[test]
fn setting_adds_the_attribute_to_the_bytes_of_the_range_alone() {
    let mut tree = busy();
    let before = marks_of(&tree);
    tree.set(2, 8, FontStyle::Italic);
    let after = marks_of(&tree);
    for i in 0..11 {
        let mut want = before[i].clone();
        if (2..8).contains(&i) {
            want.push(FontStyle::Italic);
            want.sort();
        }
        assert_eq!(after[i], want);
    }
}

#[test]
fn unsetting_takes_the_attribute_from_the_bytes_of_the_range_alone() {
    let mut tree = busy();
    let before = marks_of(&tree);
    tree.unset(5, 8, &FontStyle::Underline);
    let after = marks_of(&tree);
    for i in 0..11 {
        let mut want = before[i].clone();
        if (5..8).contains(&i) {
            want.retain(|a| *a != FontStyle::Underline);
        }
        assert_eq!(after[i], want);
    }
}

#[test]
fn removing_takes_the_bytes_and_their_attributes() {
    let mut tree = busy();
    let before = marks_of(&tree);
    tree.remove(3, 5);
    assert_eq!(tree.get_root().text(), "Helrld");
    let mut want = before.clone();
    want.drain(3..8);
    assert_eq!(marks_of(&tree), want);
}

#[test]
fn inserted_text_carries_what_the_byte_before_it_carries() {
    let mut tree = busy();
    let before = marks_of(&tree);
    tree.insert_str(6, "du ");
    assert_eq!(tree.get_root().text(), "Hello du World");
    let after = marks_of(&tree);
    for i in 6..9 {
        assert_eq!(after[i], before[5]);
    }
    assert_eq!(after[..6], before[..6]);
    assert_eq!(after[9..], before[6..]);

    tree.insert(0, '>');
    let then = marks_of(&tree);
    assert_eq!(then[0], after[0]);
    tree.push_str("!!");
    let last = marks_of(&tree);
    assert_eq!(last[last.len() - 1], then[then.len() - 1]);
    assert_eq!(tree.get_root().text(), ">Hello du World!!");
}

#[test]
fn setting_twice_is_setting_once() {
    let mut tree = busy();
    tree.set(2, 8, FontStyle::Italic);
    let once = tree.dump();
    tree.set(2, 8, FontStyle::Italic);
    assert_eq!(tree.dump(), once);
}

#[test]
fn unsetting_what_is_not_set_changes_nothing() {
    let mut tree = busy();
    let before = tree.dump();
    tree.unset(0, 11, &FontStyle::Italic);
    assert_eq!(tree.dump(), before);
    tree.unset(3, 8, &FontStyle::Italic);
    assert_eq!(tree.dump(), before);
    tree.take_events();
}

#[test]
fn setting_and_unsetting_gives_the_attributes_back() {
    let mut tree = busy();
    let before = marks_of(&tree);
    tree.set(1, 10, FontStyle::Italic);
    tree.unset(1, 10, &FontStyle::Italic);
    assert_eq!(tree.get_root().text(), "Hello World");
    assert_eq!(marks_of(&tree), before);
    check(tree.get_root(), &[], true);

    let mut plain = Tree::new("Hello World");
    plain.set(2, 7, FontStyle::Bold);
    plain.unset(2, 7, &FontStyle::Bold);
    assert_eq!(plain.dump(), "|-- 'Hello World' []\n");
}

#[test]
fn an_attribute_that_a_node_above_carries_is_not_set_again() {
    let mut tree = Tree::new("Hello World");
    tree.set(0, 11, FontStyle::Bold);
    tree.set(3, 6, FontStyle::Italic);
    let before = tree.dump();
    tree.set(4, 5, FontStyle::Bold);
    assert_eq!(tree.dump(), before);
    tree.set(0, 11, FontStyle::Bold);
    assert_eq!(tree.dump(), before);
}

#[test]
fn an_emptied_document_takes_text_again() {
    let mut tree = busy();
    tree.remove(0, tree.length());
    assert_eq!(tree.length(), 0);
    assert_eq!(tree.dump(), "|-- '' []\n");
    tree.push_str("Hello");
    assert_eq!(tree.dump(), "|-- 'Hello' []\n");
    assert!(tree.get_root().is_leaf());
}

#[test]
fn clearing_keeps_the_attributes_of_the_root_alone() {
    let mut tree = busy();
    tree.set(0, 11, FontStyle::Italic);
    tree.clear(true);
    assert_eq!(tree.dump(), "|-- '' [Italic]\n");
    tree.push_str("abc");
    assert_eq!(tree.dump(), "|-- 'abc' [Italic]\n");
    tree.clear(false);
    assert_eq!(tree.dump(), "|-- '' []\n");
}

#[test]
fn leaves_without_attributes_are_joined_under_a_new_group_node() {
    let mut tree: Tree<u8> = Tree::new("abcd");
    tree.set(0, 1, 1);
    tree.set(1, 2, 1);
    assert_eq!(tree.dump(), "|-- 'abcd' []\n    |-- 'ab' [1]\n    |-- 'cd' []\n");
    tree.set(2, 3, 2);
    tree.set(3, 4, 1);
    tree.set(2, 3, 1);
    assert_eq!(
        tree.dump(),
        "|-- 'abcd' []\n    |-- 'abcd' [1]\n        |-- 'ab' []\n        |-- 'c' [2]\n        |-- 'd' []\n"
    );
    check(tree.get_root(), &[], true);
}

#[test]
fn a_group_that_is_all_of_a_node_becomes_the_node() {
    let mut tree: Tree<u8> = Tree::new("abcd");
    tree.set(0, 2, 1);
    tree.set(2, 4, 1);
    assert_eq!(tree.dump(), "|-- 'abcd' [1]\n");
}

#[test]
fn popping_takes_the_last_byte() {
    let mut tree = busy();
    tree.pop();
    assert_eq!(tree.get_root().text(), "Hello Worl");
    assert_eq!(tree.length(), 10);
}
