use std::collections::VecDeque;
use std::ops::Deref;

use tree_path_map::{Path, Tree, TreePathMap};

#[test]
fn test_path_split_front_empty() {
    let res = Path::new().split_front();
    assert_eq!(res, None);
}

#[test]
fn test_path_push_back() {
    let res = Path::new().push_back(1).push_back(2).push_back(3);

    let mut actual_vec = VecDeque::new();
    actual_vec.push_back(1);
    actual_vec.push_back(2);
    actual_vec.push_back(3);
    let actual_path = Path(actual_vec);

    assert_eq!(res, actual_path);
}

#[test]
fn test_path_split_front_nonempty() {
    let path = Path::new().push_back(1).push_back(2).push_back(3);
    let res = path.split_front();

    let actual_path = Path::new().push_back(2).push_back(3);
    let actual = Some((1, actual_path));

    assert_eq!(res, actual);
}

#[test]
fn test_lookup_no_item() {
    let tree = Tree::new(
        "root",
        vec![
            Tree::singleton("0"),
            Tree::singleton("1"),
            Tree::new("2", vec![Tree::singleton("2-0"), Tree::singleton("2-1")]),
        ],
    );

    let path1 = Path::from_steps(vec![3]);
    let path2 = Path::from_steps(vec![0, 1]);
    let path3 = Path::from_steps(vec![1, 0]);
    let path4 = Path::from_steps(vec![2, 2]);
    let path5 = Path::from_steps(vec![2, 0, 3]);
    let path6 = Path::from_steps(vec![0, 1, 2, 3, 4]);

    assert_eq!(tree.lookup(path1), None);
    assert_eq!(tree.lookup(path2), None);
    assert_eq!(tree.lookup(path3), None);
    assert_eq!(tree.lookup(path4), None);
    assert_eq!(tree.lookup(path5), None);
    assert_eq!(tree.lookup(path6), None);
}

#[test]
fn test_lookup_find_item() {
    let tree: Tree<String> = Tree::new(
        "root".into(),
        vec![
            Tree::singleton("0".into()),
            Tree::singleton("1".into()),
            Tree::new(
                "2".into(),
                vec![
                    Tree::singleton("2-0".into()),
                    Tree::new(
                        "2-1".into(),
                        vec![
                            Tree::singleton("2-1-0".into()),
                            Tree::singleton("2-1-1".into()),
                        ],
                    ),
                ],
            ),
        ],
    );

    let path_root = Path::from_steps(vec![]);
    let path0 = Path::from_steps(vec![0]);
    let path1 = Path::from_steps(vec![1]);
    let path2 = Path::from_steps(vec![2]);
    let path2_0 = Path::from_steps(vec![2, 0]);
    let path2_1 = Path::from_steps(vec![2, 1]);
    let path2_1_0 = Path::from_steps(vec![2, 1, 0]);
    let path2_1_1 = Path::from_steps(vec![2, 1, 1]);

    assert_eq!(tree.lookup(path_root).map(String::deref), Some("root"));
    assert_eq!(tree.lookup(path0).map(String::deref), Some("0"));
    assert_eq!(tree.lookup(path1).map(String::deref), Some("1"));
    assert_eq!(tree.lookup(path2).map(String::deref), Some("2"));
    assert_eq!(tree.lookup(path2_0).map(String::deref), Some("2-0"));
    assert_eq!(tree.lookup(path2_1).map(String::deref), Some("2-1"));
    assert_eq!(tree.lookup(path2_1_0).map(String::deref), Some("2-1-0"));
    assert_eq!(tree.lookup(path2_1_1).map(String::deref), Some("2-1-1"));
}

#[test]
fn test_tree_path_map_from_tree_all_unique() {
    let tree: Tree<String> = Tree::new(
        "root".into(),
        vec![
            Tree::singleton("0".into()),
            Tree::singleton("1".into()),
            Tree::new(
                "2".into(),
                vec![
                    Tree::singleton("2-0".into()),
                    Tree::new(
                        "2-1".into(),
                        vec![
                            Tree::singleton("2-1-0".into()),
                            Tree::singleton("2-1-1".into()),
                        ],
                    ),
                ],
            ),
        ],
    );

    let res_tree_path_map: TreePathMap<String> = TreePathMap::from_tree(tree);

    let mut actual_tree_path_map: TreePathMap<String> = TreePathMap::new();

    actual_tree_path_map.insert("root".into(), Path::new());
    actual_tree_path_map.insert("0".into(), Path::from_steps(vec![0]));
    actual_tree_path_map.insert("1".into(), Path::from_steps(vec![1]));
    actual_tree_path_map.insert("2".into(), Path::from_steps(vec![2]));
    actual_tree_path_map.insert("2-0".into(), Path::from_steps(vec![2, 0]));
    actual_tree_path_map.insert("2-1".into(), Path::from_steps(vec![2, 1]));
    actual_tree_path_map.insert("2-1-0".into(), Path::from_steps(vec![2, 1, 0]));
    actual_tree_path_map.insert("2-1-1".into(), Path::from_steps(vec![2, 1, 1]));

    assert_eq!(res_tree_path_map, actual_tree_path_map);
}

#[test]
fn test_tree_path_map_from_tree() {
    let tree: Tree<String> = Tree::new(
        "cat".into(), // root
        vec![
            Tree::singleton("dog".into()), // 0
            Tree::singleton("cat".into()), // 1
            Tree::new(
                "mouse".into(), // 2
                vec![
                    Tree::singleton("fish".into()), // 2-0
                    Tree::new(
                        "fish".into(), // 2-1
                        vec![
                            Tree::singleton("dog".into()), // 2-1-0
                            Tree::singleton("cat".into()), // 2-1-1
                        ],
                    ),
                ],
            ),
        ],
    );

    let res_tree_path_map: TreePathMap<String> = TreePathMap::from_tree(tree);

    // The same occurrences, recorded in the same pre-order discovery order.
    let mut actual_tree_path_map: TreePathMap<String> = TreePathMap::new();

    actual_tree_path_map.insert("cat".into(), Path::new());
    actual_tree_path_map.insert("dog".into(), Path::from_steps(vec![0]));
    actual_tree_path_map.insert("cat".into(), Path::from_steps(vec![1]));
    actual_tree_path_map.insert("mouse".into(), Path::from_steps(vec![2]));
    actual_tree_path_map.insert("fish".into(), Path::from_steps(vec![2, 0]));
    actual_tree_path_map.insert("fish".into(), Path::from_steps(vec![2, 1]));
    actual_tree_path_map.insert("dog".into(), Path::from_steps(vec![2, 1, 0]));
    actual_tree_path_map.insert("cat".into(), Path::from_steps(vec![2, 1, 1]));

    assert_eq!(res_tree_path_map, actual_tree_path_map);
}
