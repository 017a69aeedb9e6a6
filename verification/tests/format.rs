use syntax_tree::info::FontStyle;
use syntax_tree::Tree;

#[test]
fn format_test_leaf_split_case_1() {
    let mut tree = Tree::new("Hallo Welt");
    tree.set(0, "Hallo Welt".len(), FontStyle::Bold);

    assert_eq!(tree.dump(), "|-- 'Hallo Welt' [Bold]
");
}

#[test]
fn format_test_leaf_split_case_2() {
    let mut tree = Tree::new("Hallo Welt");
    tree.set(0, 5, FontStyle::Bold);

    assert_eq!(tree.dump(), "|-- 'Hallo Welt' []
    |-- 'Hallo' [Bold]
    |-- ' Welt' []
");
}

#[test]
fn format_test_leaf_split_case_3() {
    let mut tree = Tree::new("Hallo Welt");
    tree.set(6, "Hallo Welt".len(), FontStyle::Bold);

    assert_eq!(tree.dump(), "|-- 'Hallo Welt' []
    |-- 'Hallo ' []
    |-- 'Welt' [Bold]
");
}

#[test]
fn format_test_leaf_split_case_4() {
    let mut tree = Tree::new("Hallo Welt");
    tree.set(2, 7, FontStyle::Bold);

    assert_eq!(tree.dump(), "|-- 'Hallo Welt' []
    |-- 'Ha' []
    |-- 'llo W' [Bold]
    |-- 'elt' []
");
}

#[test]
fn format_test_complex_1() {
    let mut tree = Tree::new("Hallo Welt");
    tree.set(6, "Hallo Welt".len(), FontStyle::Bold);
    tree.set(4, 7, FontStyle::Underline);

    assert_eq!(tree.dump(), "|-- 'Hallo Welt' []
    |-- 'Hall' []
    |-- 'o ' [Underline]
    |-- 'Welt' [Bold]
        |-- 'W' [Underline]
        |-- 'elt' []
");
}

#[test]
fn format_test_complex_2() {
    let mut tree = Tree::new("Hallo Welt");
    tree.set(6, "Hallo Welt".len(), FontStyle::Bold);
    tree.set(0, "Hallo Welt".len(), FontStyle::Italic);
    tree.set(4, 7, FontStyle::Underline);

    assert_eq!(tree.dump(), "|-- 'Hallo Welt' [Italic]
    |-- 'Hall' []
    |-- 'o ' [Underline]
    |-- 'Welt' [Bold]
        |-- 'W' [Underline]
        |-- 'elt' []
");
}

#[test]
fn format_test_complex_3() {
    let mut tree: Tree<i32> = Tree::new("Hello World");
    tree.set(6, "Hello World".len(), 3);
    tree.set(0, "Hello World".len(), 42);
    tree.set(0, "Hello World".len(), 8);

    assert_eq!(tree.dump(), "|-- 'Hello World' [8, 42]
    |-- 'Hello ' []
    |-- 'World' [3]
");
}

#[test]
fn format_test_cleanup_1() {
    let mut tree = Tree::new("Hello World");
    tree.set(6, "Hello World".len(), FontStyle::Bold);
    tree.set(0, "Hello World".len(), FontStyle::Italic);
    tree.set(0, "Hello World".len(), FontStyle::Bold);

    assert_eq!(tree.dump(), "|-- 'Hello World' [Bold, Italic]
");
}

#[test]
fn format_test_cleanup_2() {
    let mut tree = Tree::new("Hello World");
    tree.set(6, "Hello World".len(), FontStyle::Bold);
    tree.set(0, 6, FontStyle::Underline);
    tree.set(0, "Hello World".len(), FontStyle::Italic);
    tree.set(0, "Hello World".len(), FontStyle::Bold);

    assert_eq!(tree.dump(), "|-- 'Hello World' [Bold, Italic]
    |-- 'Hello ' [Underline]
    |-- 'World' []
");
}

#[test]
fn format_test_cleanup_3() {
    let mut tree = Tree::new("Hello World");
    tree.set(6, "Hello World".len(), FontStyle::Bold);
    tree.set(0, 6, FontStyle::Underline);
    tree.set(0, "Hello World".len(), FontStyle::Italic);
    tree.set(0, "Hello World".len(), FontStyle::Bold);
    tree.set(0, "Hello World".len(), FontStyle::Underline);

    assert_eq!(tree.dump(), "|-- 'Hello World' [Bold, Italic, Underline]
");
}

#[test]
fn group_neighbor_test_1() {
    let mut tree = Tree::new("Hello World");
    tree.set(4, 7, FontStyle::Underline);
    tree.set(4, 7, FontStyle::Bold);
    tree.set(0, 4, FontStyle::Underline);

    assert_eq!(tree.dump(), "|-- 'Hello World' []
    |-- 'Hello W' [Underline]
        |-- 'Hell' []
        |-- 'o W' [Bold]
    |-- 'orld' []
");
}

#[test]
fn group_neighbor_test_2() {
    let mut tree = Tree::new("Hello World");
    tree.set(0, 1, FontStyle::Bold);
    tree.set(0, 1, FontStyle::Italic);
    tree.set(0, 1, FontStyle::Underline);
    tree.set(1, 2, FontStyle::Bold);
    tree.set(1, 2, FontStyle::Italic);
    tree.set(2, 3, FontStyle::Bold);

    assert_eq!(tree.dump(), "|-- 'Hello World' []
    |-- 'Hel' [Bold]
        |-- 'He' [Italic]
            |-- 'H' [Underline]
            |-- 'e' []
        |-- 'l' []
    |-- 'lo World' []
");
}

#[test]
fn set_test_info_already_set_on_node() {
    let mut tree: Tree<FontStyle> = Tree::new("Hello World");
    tree.set(4, 7, FontStyle::Underline);
    tree.set(6, "Hello World".len(), FontStyle::Bold);
    tree.set(6, 9, FontStyle::Underline);

    assert_eq!(tree.dump(), "|-- 'Hello World' []
    |-- 'Hell' []
    |-- 'o W' [Underline]
        |-- 'o ' []
        |-- 'W' [Bold]
    |-- 'orld' [Bold]
        |-- 'or' [Underline]
        |-- 'ld' []
");
}
