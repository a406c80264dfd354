use rope::text::{LenAtLeast, MeasuredString, StringMeasure};
use rope::tree::{SplayTree, SplitResult};

type Tree = SplayTree<StringMeasure, MeasuredString>;

fn chunk(s: &str) -> MeasuredString {
    MeasuredString::from(String::from(s))
}

fn leaf(s: &str) -> Tree {
    SplayTree::singleton(chunk(s))
}

fn contents(t: Tree) -> Vec<String> {
    t.iter().into_iter().map(|c| c.string).collect()
}

fn tree_of(parts: &[&str]) -> Tree {
    let mut t = Tree::empty();
    for p in parts {
        t = SplayTree::concatenate(t, leaf(p));
    }
    t
}

#[test]
fn empty_is_empty() {
    let t = Tree::empty();
    assert!(t.is_empty());
    let m = t.measure();
    assert_eq!(m, StringMeasure { len: 0, char_count: 0, newline_count: 0 });
}

#[test]
fn singleton_measure() {
    let t = leaf("ab\n");
    assert!(!t.is_empty());
    let m = t.measure();
    assert_eq!(m, StringMeasure { len: 3, char_count: 3, newline_count: 1 });
}

#[test]
fn identity_left() {
    let t = SplayTree::concatenate(Tree::empty(), leaf("abc"));
    assert_eq!(t.measure().len, 3);
    assert_eq!(contents(t), vec![String::from("abc")]);
}

#[test]
fn identity_right() {
    let t = SplayTree::concatenate(leaf("abc"), Tree::empty());
    assert_eq!(t.measure().len, 3);
    assert_eq!(contents(t), vec![String::from("abc")]);
}

#[test]
fn order_preservation() {
    let a = tree_of(&["a", "b"]);
    let b = tree_of(&["c", "d", "e"]);
    let t = SplayTree::concatenate(a, b);
    assert_eq!(contents(t), vec!["a", "b", "c", "d", "e"]);
}

#[test]
fn associativity() {
    let ab_c = SplayTree::concatenate(
        SplayTree::concatenate(leaf("a\n"), leaf("bb")),
        leaf("ccc"),
    );
    let a_bc = SplayTree::concatenate(
        leaf("a\n"),
        SplayTree::concatenate(leaf("bb"), leaf("ccc")),
    );
    assert_eq!(ab_c.measure(), a_bc.measure());
    assert_eq!(contents(ab_c), contents(a_bc));
}

#[test]
fn measure_recomputed_from_parts() {
    let t = tree_of(&["one\n", "two", "three\n\n"]);
    let m = t.measure();
    assert_eq!(m.len, 4 + 3 + 7);
    assert_eq!(m.char_count, 4 + 3 + 7);
    assert_eq!(m.newline_count, 3);
}

#[test]
fn uncons_roundtrip() {
    let t = tree_of(&["x", "y", "z"]);
    let (first, rest) = t.uncons().unwrap();
    assert_eq!(first.string, "x");
    assert_eq!(rest.measure().len, 2);
    let rejoined = SplayTree::concatenate(SplayTree::singleton(first), rest);
    assert_eq!(contents(rejoined), vec!["x", "y", "z"]);
}

#[test]
fn unsnoc_roundtrip() {
    let t = tree_of(&["x", "y", "z"]);
    let (rest, last) = t.unsnoc().unwrap();
    assert_eq!(last.string, "z");
    assert_eq!(rest.measure().len, 2);
    let rejoined = SplayTree::concatenate(rest, SplayTree::singleton(last));
    assert_eq!(contents(rejoined), vec!["x", "y", "z"]);
}

#[test]
fn uncons_empty() {
    assert!(Tree::empty().uncons().is_none());
    assert!(Tree::empty().unsnoc().is_none());
}

#[test]
fn split_inside() {
    let t = tree_of(&["ab", "cd", "ef"]);
    match t.split(&LenAtLeast { threshold: 3 }) {
        SplitResult::Inside(f) => {
            assert_eq!(f.element.string, "cd");
            assert_eq!(contents(f.left), vec!["ab"]);
            assert_eq!(contents(f.right), vec!["ef"]);
            assert_eq!(f.measure.len, 6);
        }
        _ => panic!("expected a three-way partition"),
    }
}

#[test]
fn split_boundary_first_element() {
    let t = tree_of(&["ab", "cd"]);
    match t.split(&LenAtLeast { threshold: 1 }) {
        SplitResult::Inside(f) => {
            assert_eq!(f.element.string, "ab");
            assert!(f.left.is_empty());
            assert_eq!(contents(f.right), vec!["cd"]);
        }
        _ => panic!("expected a three-way partition"),
    }
}

#[test]
fn split_never_true() {
    let t = tree_of(&["ab", "cd"]);
    match t.split(&LenAtLeast { threshold: 100 }) {
        SplitResult::RightOf(whole) => {
            assert_eq!(contents(whole), vec!["ab", "cd"]);
        }
        _ => panic!("expected the whole sequence left of the boundary"),
    }
}

#[test]
fn split_true_on_empty_prefix() {
    let t = tree_of(&["ab", "cd"]);
    match t.split(&LenAtLeast { threshold: 0 }) {
        SplitResult::LeftOf(whole) => {
            assert_eq!(contents(whole), vec!["ab", "cd"]);
        }
        _ => panic!("expected the whole sequence right of the boundary"),
    }
}

#[test]
fn split_empty_tree() {
    match Tree::empty().split(&LenAtLeast { threshold: 5 }) {
        SplitResult::RightOf(t) => assert!(t.is_empty()),
        _ => panic!("expected the empty sequence left of the boundary"),
    }
    match Tree::empty().split(&LenAtLeast { threshold: 0 }) {
        SplitResult::LeftOf(t) => assert!(t.is_empty()),
        _ => panic!("expected the empty sequence right of the boundary"),
    }
}

#[test]
fn fork_builds_cached_measure() {
    let t = SplayTree::fork(leaf("aa"), chunk("b"), leaf("cc"));
    assert_eq!(t.measure().len, 5);
    assert_eq!(contents(t), vec!["aa", "b", "cc"]);
}

#[test]
fn scenario_hello_world_tree() {
    let t = SplayTree::concatenate(leaf("Hello"), leaf(", world!!"));
    assert_eq!(t.measure().len, 14);
    let (first, rest) = t.uncons().unwrap();
    assert_eq!(first.string, "Hello");
    assert_eq!(StringMeasure::from(&first).len, 5);
    assert_eq!(rest.measure().len, 9);
}
