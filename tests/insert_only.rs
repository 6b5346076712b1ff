use btree::Node;

fn leaf(keys: Vec<usize>) -> Node {
    Node { keys, children: Vec::new() }
}

// A tree of three levels:
//   {{
//     [1, 2, 3, 4],
//    5,
//     [6, 7],
//    8,
//     [9, 10],
//    },
//   11,
//    {
//     [12, 13, 14, 15],
//    16,
//     [17, 18, 19, 20],
//    21,
//     [22, 23, 24, 25],
//    }}
fn build_tree() -> Node {
    let inode1 = Node {
        keys: vec![5, 8],
        children: vec![leaf(vec![1, 2, 3, 4]), leaf(vec![6, 7]), leaf(vec![9, 10])],
    };
    let inode2 = Node {
        keys: vec![16, 21],
        children: vec![
            leaf(vec![12, 13, 14, 15]),
            leaf(vec![17, 18, 19, 20]),
            leaf(vec![22, 23, 24, 25]),
        ],
    };
    Node { keys: vec![11], children: vec![inode1, inode2] }
}

#[test]
fn test_find() {
    let root = build_tree();

    let it = root.find(20);
    assert!(it.is_some());
    assert_eq!(it.unwrap().keys[3], 20);

    let it = root.find(100);
    assert!(it.is_none());
}

#[test]
fn test_insert1() {
    let mut root = Node::new_boxed();
    root.insert(5);
    root.insert(8);
    root.insert(11);
    root.insert(16);
    assert_eq!(root.height(), 1);
    root.insert(21);
    assert_eq!(root.height(), 2);
    assert!(root.is_balanced());
    let input = [1, 2, 6, 7, 9, 10, 12, 13, 17, 18, 22, 23, 3, 4, 14, 15, 19, 20, 24, 25];
    for i in input {
        root.insert(i);
    }
    assert_eq!(root.height(), 3);
    assert!(root.is_balanced());
    println!("{}", root.render());
}

#[test]
fn test_insert2() {
    let mut root = Node::new_boxed();
    let input = [1, 2, 3, 4, 5, 6, 7, 8, 9, 10, 11, 12, 13, 14, 15, 16, 17];
    for i in input {
        root.insert(i);
    }
    assert_eq!(root.height(), 3);
    assert!(root.is_balanced());
    let ans = root.render();
    let exp = r#"
{{
  [1, 2],
 3,
  [4, 5],
 6,
  [7, 8],
 },
9,
 {
  [10, 11],
 12,
  [13, 14],
 15,
  [16, 17],
 }}
"#;
    assert_eq!(ans, exp.trim());
}

#[test]
fn test_format() {
    let root = build_tree();
    let ans = root.render();
    let exp = r#"
{{
  [1, 2, 3, 4],
 5,
  [6, 7],
 8,
  [9, 10],
 },
11,
 {
  [12, 13, 14, 15],
 16,
  [17, 18, 19, 20],
 21,
  [22, 23, 24, 25],
 }}"#;
    assert_eq!(ans, exp.trim_start());
}
