use btree::Node;

fn holds(root: &Node, key: usize) -> bool {
    root.find(key).is_some()
}

#[test]
fn empty_tree_finds_nothing() {
    let root = Node::new();
    assert!(root.find(0).is_none());
    assert!(root.find(100).is_none());
    assert_eq!(root.height(), 1);
    assert!(root.is_balanced());
    assert_eq!(root.render(), "\n[],\n");
}

#[test]
fn leaf_root_renders_on_its_own_line() {
    let mut root = Node::new();
    root.insert(3);
    root.insert(1);
    root.insert(2);
    assert_eq!(root.render(), "\n[1, 2, 3],\n");
}

#[test]
fn duplicate_insert_changes_nothing() {
    let mut root = Node::new();
    for k in 1..=17 {
        root.insert(k);
    }
    let before = root.render();
    root.insert(9);
    root.insert(1);
    root.insert(17);
    assert_eq!(root.render(), before);
    assert_eq!(root.height(), 3);
}

#[test]
fn deleting_an_absent_key_changes_nothing() {
    let mut root = Node::new();
    for k in [11, 1, 2, 20, 21, 5, 7, 4, 8, 3] {
        root.insert(k);
    }
    let before = root.render();
    root.delete(6);
    root.delete(100);
    assert_eq!(root.render(), before);
    let mut empty = Node::new();
    empty.delete(5);
    assert_eq!(empty.render(), "\n[],\n");
}

#[test]
fn found_node_holds_the_key() {
    let mut root = Node::new();
    for k in 0..60 {
        root.insert(k * 3);
    }
    for k in 0..60 {
        let node = root.find(k * 3).unwrap();
        assert!(node.keys.contains(&(k * 3)));
        assert!(root.find(k * 3 + 1).is_none());
    }
    assert!(root.find(100).is_none());
}

#[test]
fn find_after_inserts_and_deletes() {
    let mut root = Node::new();
    for k in 0..200 {
        root.insert((k * 37) % 200);
    }
    for k in 0..200 {
        assert!(holds(&root, k));
    }
    for k in (0..200).filter(|k| k % 2 == 0) {
        root.delete(k);
        assert!(root.is_balanced());
    }
    for k in 0..200 {
        assert_eq!(holds(&root, k), k % 2 == 1);
    }
}

#[test]
fn height_grows_under_inserts_and_shrinks_under_deletes() {
    let mut root = Node::new();
    let mut h = root.height();
    for k in 0..300 {
        root.insert((k * 7919) % 1000);
        let h2 = root.height();
        assert!(h2 == h || h2 == h + 1);
        h = h2;
    }
    assert!(h >= 4);
    for k in 0..1000 {
        root.delete((k * 13) % 1000);
        let h2 = root.height();
        assert!(h2 == h || h2 + 1 == h);
        h = h2;
    }
    assert_eq!(h, 1);
    assert_eq!(root.render(), "\n[],\n");
}

#[test]
fn insert_then_delete_restores_the_keys() {
    let mut root = Node::new();
    for k in 1..=17 {
        root.insert(k * 2);
    }
    root.insert(7);
    assert!(holds(&root, 7));
    root.delete(7);
    for k in 0..40 {
        assert_eq!(holds(&root, k), k % 2 == 0 && k >= 2 && k <= 34);
    }
    assert!(root.is_balanced());
    assert_eq!(root.height(), 3);
}

#[test]
fn largest_key_is_stored() {
    let mut root = Node::new();
    root.insert(usize::MAX);
    root.insert(0);
    assert!(holds(&root, usize::MAX));
    assert!(holds(&root, 0));
    assert_eq!(root.render(), format!("\n[0, {}],\n", usize::MAX));
    root.delete(usize::MAX);
    assert!(!holds(&root, usize::MAX));
}

#[test]
fn rightmost_node_is_the_last_leaf() {
    let mut root = Node::new();
    for k in 1..=17 {
        root.insert(k);
    }
    let r = root.get_rightmost_node();
    assert_eq!(r.keys, vec![16, 17]);
    assert!(r.is_leaf());
    assert!(!root.is_leaf());
    assert!(root.have_child());
}

#[test]
fn uneven_tree_is_not_balanced() {
    let deep = Node {
        keys: vec![5],
        children: vec![
            Node { keys: vec![1, 2], children: Vec::new() },
            Node { keys: vec![6, 7], children: Vec::new() },
        ],
    };
    let shallow = Node { keys: vec![20, 21], children: Vec::new() };
    let root = Node { keys: vec![10], children: vec![deep, shallow] };
    assert!(!root.is_balanced());
    assert!(!root.children[0].same_height(&root.children[1]));
    assert!(root.children[0].is_balanced());
}

#[test]
fn split_promotes_the_middle_key() {
    let mut root = Node::new();
    for k in [50, 10, 40, 20] {
        root.insert(k);
    }
    assert_eq!(root.height(), 1);
    root.insert(30);
    assert_eq!(root.height(), 2);
    assert_eq!(root.render(), "{\n [10, 20],\n30,\n [40, 50],\n}");
}

#[test]
fn borrow_from_right_sibling() {
    let mut root = Node::new();
    for k in [10, 20, 30, 40, 50, 60, 70] {
        root.insert(k);
    }
    assert_eq!(root.render(), "{\n [10, 20],\n30,\n [40, 50, 60, 70],\n}");
    root.delete(10);
    assert_eq!(root.render(), "{\n [20, 30],\n40,\n [50, 60, 70],\n}");
}

#[test]
fn merge_collapses_the_root() {
    let mut root = Node::new();
    for k in [10, 20, 30, 40, 50] {
        root.insert(k);
    }
    assert_eq!(root.height(), 2);
    root.delete(50);
    assert_eq!(root.height(), 1);
    assert_eq!(root.render(), "\n[10, 20, 30, 40],\n");
}

#[test]
fn deep_tree_closes_inner_right_nodes_with_a_comma() {
    let mut root = Node::new();
    for k in 1..=53 {
        root.insert(k);
    }
    assert_eq!(root.height(), 4);
    let exp = "{{{\n   [1, 2],\n  3,\n   [4, 5],\n  6,\n   [7, 8],\n  },\n 9,\n  {\n   [10, 11],\n  12,\n   [13, 14],\n  15,\n   [16, 17],\n  },\n 18,\n  {\n   [19, 20],\n  21,\n   [22, 23],\n  24,\n   [25, 26],\n  },\n },\n27,\n {\n  {\n   [28, 29],\n  30,\n   [31, 32],\n  33,\n   [34, 35],\n  },\n 36,\n  {\n   [37, 38],\n  39,\n   [40, 41],\n  42,\n   [43, 44],\n  },\n 45,\n  {\n   [46, 47],\n  48,\n   [49, 50],\n  51,\n   [52, 53],\n  } },\n}";
    assert_eq!(root.render(), exp);
}

#[test]
fn full_leaf_under_a_roomy_root_keeps_the_height() {
    let mut root = Node::new();
    for k in [10, 20, 30, 40, 50, 60, 70, 80] {
        root.insert(k);
    }
    assert_eq!(root.render(), "{\n [10, 20],\n30,\n [40, 50],\n60,\n [70, 80],\n}");
    for k in [1, 2, 3] {
        root.insert(k);
    }
    assert_eq!(root.height(), 2);
    assert_eq!(root.render(), "{\n [1, 2],\n3,\n [10, 20],\n30,\n [40, 50],\n60,\n [70, 80],\n}");
}
