use btree::Node;

fn leaf_of(keys: Vec<usize>) -> Node {
    Node { keys, children: Vec::new() }
}

// A tree of three levels:
//   {{
//     [1, 2, 3, 4],
//    5,
//     [6, 7],
//    8,
//     [9, 10],
//    },
//   11,
//    {
//     [12, 13, 14, 15],
//    16,
//     [17, 18, 19, 20],
//    21,
//     [22, 23, 24, 25],
//    }}
fn sample_tree() -> Node {
    let inode1 = Node {
        keys: vec![5, 8],
        children: vec![leaf_of(vec![1, 2, 3, 4]), leaf_of(vec![6, 7]), leaf_of(vec![9, 10])],
    };
    let inode2 = Node {
        keys: vec![16, 21],
        children: vec![
            leaf_of(vec![12, 13, 14, 15]),
            leaf_of(vec![17, 18, 19, 20]),
            leaf_of(vec![22, 23, 24, 25]),
        ],
    };
    Node { keys: vec![11], children: vec![inode1, inode2] }
}

#[test]
fn mod_test_find() {
    let root = sample_tree();

    let it = root.find(20);
    assert!(it.is_some());
    assert_eq!(it.unwrap().keys[3], 20);

    let it = root.find(100);
    assert!(it.is_none());
}

#[test]
fn mod_test_insert1() {
    let mut root = Node::new_boxed();
    root.insert(5);
    root.insert(8);
    root.insert(11);
    root.insert(16);
    assert_eq!(root.height(), 1);
    root.insert(21);
    assert_eq!(root.height(), 2);
    assert!(root.is_balanced());
    root.insert(1);
    root.insert(2);
    root.insert(6);
    root.insert(7);
    root.insert(9);
    root.insert(10);
    root.insert(12);
    root.insert(13);
    root.insert(17);
    root.insert(18);
    root.insert(22);
    root.insert(23);
    root.insert(3);
    root.insert(4);
    root.insert(14);
    root.insert(15);
    root.insert(19);
    root.insert(20);
    root.insert(24);
    root.insert(25);
    assert_eq!(root.height(), 3);
    assert!(root.is_balanced());
}

#[test]
fn mod_test_insert2() {
    let mut root = Node::new_boxed();
    root.insert(1);
    root.insert(2);
    root.insert(3);
    root.insert(4);
    root.insert(5);
    root.insert(6);
    root.insert(7);
    root.insert(8);
    root.insert(9);
    root.insert(10);
    root.insert(11);
    root.insert(12);
    root.insert(13);
    root.insert(14);
    root.insert(15);
    root.insert(16);
    root.insert(17);
    assert_eq!(root.height(), 3);
    assert!(root.is_balanced());
    let ans = root.render();
    let exp = r#"
{{
  [1, 2],
 3,
  [4, 5],
 6,
  [7, 8],
 },
9,
 {
  [10, 11],
 12,
  [13, 14],
 15,
  [16, 17],
 }}
"#;
    assert_eq!(ans, exp.trim());
}

#[test]
fn mod_test_format() {
    let root = sample_tree();
    let ans = root.render();
    let exp = r#"
{{
  [1, 2, 3, 4],
 5,
  [6, 7],
 8,
  [9, 10],
 },
11,
 {
  [12, 13, 14, 15],
 16,
  [17, 18, 19, 20],
 21,
  [22, 23, 24, 25],
 }}"#;
    assert_eq!(ans, exp.trim_start());
}

#[test]
fn test_delete_from_leaf() {
    let mut root = Node::new_boxed();
    let input = [11, 1, 2, 20, 21, 5, 7, 4, 8, 3];
    for i in input {
        root.insert(i);
    }
    assert_eq!(root.height(), 2);
    assert!(root.is_balanced());
    let ans = root.render();
    let exp = r#"
{
 [1, 2, 3],
4,
 [5, 7, 8],
11,
 [20, 21],
}"#;
    assert_eq!(ans, exp.trim());

    // delete directly
    root.delete(8);

    let ans = root.render();
    let exp = r#"
{
 [1, 2, 3],
4,
 [5, 7],
11,
 [20, 21],
}
"#;
    assert_eq!(ans, exp.trim());

    // borrow a key
    root.delete(5);

    let ans = root.render();
    let exp = r#"
{
 [1, 2],
3,
 [4, 7],
11,
 [20, 21],
}
"#;
    assert_eq!(ans, exp.trim());

    // merge two children
    root.delete(4);

    let ans = root.render();
    let exp = r#"
{
 [1, 2, 3, 7],
11,
 [20, 21],
}
"#;
    assert_eq!(ans, exp.trim());

    // borrow a key
    root.delete(21);

    let ans = root.render();
    let exp = r#"
{
 [1, 2, 3],
7,
 [11, 20],
}
"#;
    assert_eq!(ans, exp.trim());
}

#[test]
fn test_delete_from_internal() {
    let mut root = Node::new_boxed();
    let input = [5, 8, 11, 16, 21, 1, 2, 6, 7, 9, 10, 12, 13, 17, 18, 22, 23, 19];
    for i in input {
        root.insert(i);
    }
    assert_eq!(root.height(), 3);
    assert!(root.is_balanced());
    let ans = root.render();
    let exp = r#"
{{
  [1, 2],
 5,
  [6, 7],
 8,
  [9, 10],
 },
11,
 {
  [12, 13],
 16,
  [17, 18, 19],
 21,
  [22, 23],
 }}
"#;
    assert_eq!(ans, exp.trim());

    root.delete(16);
    let ans = root.render();
    let exp = r#"
{{
  [1, 2],
 5,
  [6, 7],
 8,
  [9, 10],
 },
11,
 {
  [12, 13],
 17,
  [18, 19],
 21,
  [22, 23],
 }}
"#;
    assert_eq!(ans, exp.trim());

    root.delete(5);
    let ans = root.render();
    let exp = r#"
{
 [1, 2, 6, 7],
8,
 [9, 10],
11,
 [12, 13],
17,
 [18, 19],
21,
 [22, 23],
}
"#;
    assert_eq!(ans, exp.trim());
    assert_eq!(root.height(), 2);

    root.delete(8);
    let ans = root.render();
    let exp = r#"
{
 [1, 2, 6],
7,
 [9, 10],
11,
 [12, 13],
17,
 [18, 19],
21,
 [22, 23],
}
"#;
    assert_eq!(ans, exp.trim());

    root.delete(11);
    let ans = root.render();
    let exp = r#"
{
 [1, 2, 6],
7,
 [9, 10, 12, 13],
17,
 [18, 19],
21,
 [22, 23],
}
"#;
    assert_eq!(ans, exp.trim());

    root.delete(6);
    let ans = root.render();
    let exp = r#"
{
 [1, 2],
7,
 [9, 10, 12, 13],
17,
 [18, 19],
21,
 [22, 23],
}
"#;
    assert_eq!(ans, exp.trim());

    root.delete(17);
    let ans = root.render();
    let exp = r#"
{
 [1, 2],
7,
 [9, 10, 12],
13,
 [18, 19],
21,
 [22, 23],
}
"#;
    assert_eq!(ans, exp.trim());

    root.delete(21);
    let ans = root.render();
    let exp = r#"
{
 [1, 2],
7,
 [9, 10, 12],
13,
 [18, 19, 22, 23],
}
"#;
    assert_eq!(ans, exp.trim());

    root.delete(9);
    let ans = root.render();
    let exp = r#"
{
 [1, 2],
7,
 [10, 12],
13,
 [18, 19, 22, 23],
}
"#;
    assert_eq!(ans, exp.trim());

    root.delete(7);
    let ans = root.render();
    let exp = r#"
{
 [1, 2, 10, 12],
13,
 [18, 19, 22, 23],
}
"#;
    assert_eq!(ans, exp.trim());

    root.delete(10);
    let ans = root.render();
    let exp = r#"
{
 [1, 2, 12],
13,
 [18, 19, 22, 23],
}
"#;
    assert_eq!(ans, exp.trim());

    root.delete(12);
    let ans = root.render();
    let exp = r#"
{
 [1, 2],
13,
 [18, 19, 22, 23],
}
"#;
    assert_eq!(ans, exp.trim());
}
