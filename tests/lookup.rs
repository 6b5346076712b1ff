use btree::Node;

fn bare_leaf(keys: Vec<usize>) -> Node {
    Node { keys, children: Vec::new() }
}

// A tree of three levels:
//   {{
//     [1, 2, 3, 4],
//    5,
//     [6, 7],
//    8,
//     [9, 10],
//    },
//   11,
//    {
//     [12, 13, 14, 15],
//    16,
//     [17, 18, 19, 20],
//    21,
//     [22, 23, 24, 25],
//    }}
fn three_level_tree() -> Node {
    let inode1 = Node {
        keys: vec![5, 8],
        children: vec![bare_leaf(vec![1, 2, 3, 4]), bare_leaf(vec![6, 7]), bare_leaf(vec![9, 10])],
    };
    let inode2 = Node {
        keys: vec![16, 21],
        children: vec![
            bare_leaf(vec![12, 13, 14, 15]),
            bare_leaf(vec![17, 18, 19, 20]),
            bare_leaf(vec![22, 23, 24, 25]),
        ],
    };
    Node { keys: vec![11], children: vec![inode1, inode2] }
}

#[test]
fn main_test_find() {
    let root = three_level_tree();

    let it = root.find(20);
    assert!(it.is_some());
    assert_eq!(it.unwrap().keys[3], 20);

    let it = root.find(100);
    assert!(it.is_none());
}
