use std::ops::Deref;

use tree_path_map::{Path, Tree, TreePathMap};

// Splitting a freshly pushed step off an empty path gives that step back.
#[test]
fn push_then_split_on_empty_path() {
    let res = Path::new().push_back(7).split_front();
    assert_eq!(res, Some((7, Path::new())));
}

// Splitting a pushed path yields its first step and the rest, with the
// original path left unchanged.
#[test]
fn push_then_split_on_longer_path() {
    let path = Path::new().push_back(4).push_back(5);
    let pushed = path.push_back(6);
    let res = pushed.split_front();
    let rest = Path::new().push_back(5).push_back(6);
    assert_eq!(res, Some((4, rest)));
    // value semantics: neither receiver changed
    assert_eq!(path, Path::new().push_back(4).push_back(5));
    assert_eq!(
        pushed,
        Path::new().push_back(4).push_back(5).push_back(6)
    );
}

// The empty path addresses the tree's own item.
#[test]
fn lookup_empty_path_gives_root() {
    let tree = Tree::new(41u64, vec![Tree::singleton(42u64)]);
    assert_eq!(tree.lookup(Path::new()), Some(&41));
}

// Looking up [i] ++ rest equals looking up rest in child i.
#[test]
fn lookup_descends_into_child() {
    let child = Tree::new(10u64, vec![Tree::singleton(11u64), Tree::singleton(12u64)]);
    let tree = Tree::new(1u64, vec![Tree::singleton(2u64), child]);

    let child_again = Tree::new(10u64, vec![Tree::singleton(11u64), Tree::singleton(12u64)]);
    assert_eq!(
        tree.lookup(Path::from_steps(vec![1, 0])),
        child_again.lookup(Path::from_steps(vec![0]))
    );
    assert_eq!(
        tree.lookup(Path::from_steps(vec![1, 1])),
        child_again.lookup(Path::from_steps(vec![1]))
    );
    assert_eq!(
        tree.lookup(Path::from_steps(vec![1, 2])),
        child_again.lookup(Path::from_steps(vec![2]))
    );
    // first step out of range
    assert_eq!(tree.lookup(Path::from_steps(vec![2])), None);
}

// Every path discoverable by construction leads back to the item placed
// there.
#[test]
fn lookup_round_trip_by_construction() {
    let tree = Tree::new(
        0u64,
        vec![
            Tree::singleton(1),
            Tree::new(2, vec![Tree::singleton(3), Tree::singleton(4)]),
        ],
    );
    assert_eq!(tree.lookup(Path::new()), Some(&0));
    assert_eq!(tree.lookup(Path::from_steps(vec![0])), Some(&1));
    assert_eq!(tree.lookup(Path::from_steps(vec![1])), Some(&2));
    assert_eq!(tree.lookup(Path::from_steps(vec![1, 0])), Some(&3));
    assert_eq!(tree.lookup(Path::from_steps(vec![1, 1])), Some(&4));
}

// The index records every occurrence, and `lookup_first` returns the
// earliest discovered path; a value that never occurs is absent.
#[test]
fn index_of_example_tree() {
    let tree: Tree<String> = Tree::new(
        "cat".into(),
        vec![
            Tree::singleton("dog".into()),
            Tree::singleton("cat".into()),
            Tree::new(
                "mouse".into(),
                vec![
                    Tree::singleton("fish".into()),
                    Tree::new(
                        "fish".into(),
                        vec![
                            Tree::singleton("dog".into()),
                            Tree::singleton("cat".into()),
                        ],
                    ),
                ],
            ),
        ],
    );
    let index = TreePathMap::from_tree(tree);

    assert_eq!(index.lookup_first(&"cat".to_string()), Some(&Path::new()));
    assert_eq!(
        index.lookup_first(&"dog".to_string()),
        Some(&Path::from_steps(vec![0]))
    );
    assert_eq!(
        index.lookup_first(&"mouse".to_string()),
        Some(&Path::from_steps(vec![2]))
    );
    assert_eq!(
        index.lookup_first(&"fish".to_string()),
        Some(&Path::from_steps(vec![2, 0]))
    );
    assert_eq!(index.lookup_first(&"bird".to_string()), None);
}

// An all-unique tree maps every value to exactly its own address.
#[test]
fn index_of_all_unique_tree() {
    let tree = Tree::new(
        10u64,
        vec![Tree::singleton(20), Tree::new(30, vec![Tree::singleton(40)])],
    );
    let index = TreePathMap::from_tree(tree);
    assert_eq!(index.lookup_first(&10), Some(&Path::new()));
    assert_eq!(index.lookup_first(&20), Some(&Path::from_steps(vec![0])));
    assert_eq!(index.lookup_first(&30), Some(&Path::from_steps(vec![1])));
    assert_eq!(index.lookup_first(&40), Some(&Path::from_steps(vec![1, 0])));
    assert_eq!(index.lookup_first(&50), None);
}

// The borrowing and the consuming index construction agree.
#[test]
fn index_variants_agree() {
    let tree: Tree<String> = Tree::new(
        "a".into(),
        vec![
            Tree::singleton("b".into()),
            Tree::new("a".into(), vec![Tree::singleton("b".into())]),
        ],
    );
    let borrowed = TreePathMap::from_tree_ref(&tree);
    let consumed = TreePathMap::from_tree(tree);
    assert_eq!(borrowed, consumed);
}

// `insert` keeps discovery order for a repeated key: the first inserted
// path stays first.
#[test]
fn insert_preserves_first_occurrence() {
    let mut index: TreePathMap<&str> = TreePathMap::new();
    index.insert("x", Path::from_steps(vec![1]));
    index.insert("x", Path::from_steps(vec![0]));
    assert_eq!(index.lookup_first(&"x"), Some(&Path::from_steps(vec![1])));
    assert_eq!(index.lookup_first(&"y"), None);
}

// After appending a child, the path of one step, the previous child count,
// addresses the new child's item, and old paths are unchanged.
#[test]
fn append_extends_addresses() {
    let mut tree: Tree<String> = Tree::new(
        "root".into(),
        vec![Tree::singleton("0".into()), Tree::singleton("1".into())],
    );
    tree.append(Tree::singleton("2".into()));
    assert_eq!(
        tree.lookup(Path::from_steps(vec![2])).map(String::deref),
        Some("2")
    );
    assert_eq!(
        tree.lookup(Path::new()).map(String::deref),
        Some("root")
    );
    assert_eq!(
        tree.lookup(Path::from_steps(vec![0])).map(String::deref),
        Some("0")
    );
    assert_eq!(
        tree.lookup(Path::from_steps(vec![1])).map(String::deref),
        Some("1")
    );
    assert_eq!(tree.lookup(Path::from_steps(vec![3])), None);
}

// A leaf-only tree indexes its root under the empty path.
#[test]
fn index_of_singleton_tree() {
    let index = TreePathMap::from_tree(Tree::singleton(9u64));
    assert_eq!(index.lookup_first(&9), Some(&Path::new()));
    assert_eq!(index.lookup_first(&8), None);
}

// `from_steps` records the given steps in order.
#[test]
fn from_steps_round_trip() {
    let path = Path::from_steps(vec![2, 0, 1]);
    let (first, rest) = path.split_front().unwrap();
    assert_eq!(first, 2);
    assert_eq!(rest, Path::from_steps(vec![0, 1]));
    assert_eq!(Path::from_steps(vec![]), Path::new());
}
