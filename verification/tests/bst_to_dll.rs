use algokit::bst_to_dll::{
    bst_to_dll, build_bst, dll_to_vec_backward, dll_to_vec_forward, has_links_in_range,
    insert_bst, Dll, DllNode,
};
use algokit::tree::{Tree, TreeNode};

#[test]
fn test_example_from_autopsy() {
    // Build:       13
    //             /
    //            9
    //           / \
    //          5   10
    let mut root = TreeNode::new(13);
    let mut nine = TreeNode::new(9);
    let five = TreeNode::new(5);
    let ten = TreeNode::new(10);

    nine.left = Some(Box::new(five));
    nine.right = Some(Box::new(ten));
    root.left = Some(Box::new(nine));

    let head = bst_to_dll(Some(Box::new(root)));

    let forward = dll_to_vec_forward(&head, 4);
    assert_eq!(forward, vec![5, 9, 10, 13], "Forward traversal failed");

    let backward = dll_to_vec_backward(&head, 4);
    assert_eq!(backward, vec![13, 10, 9, 5], "Backward traversal failed");
}

#[test]
fn bst_to_dll_test_single_node() {
    let root = TreeNode::new(42);
    let head = bst_to_dll(Some(Box::new(root)));

    assert!(head.head.is_some());
    let h = head.head.unwrap();
    assert_eq!(head.nodes[h].val, 42);
    // A single node is its own neighbour on both sides.
    assert!(head.nodes[h].left == Some(h));
    assert!(head.nodes[h].right == Some(h));
}

#[test]
fn bst_to_dll_test_empty_tree() {
    let head = bst_to_dll(None);
    assert!(head.head.is_none());
}

#[test]
fn test_left_skewed() {
    let root = build_bst(&[5, 3, 1]);
    let head = bst_to_dll(root);
    let forward = dll_to_vec_forward(&head, 3);
    assert_eq!(forward, vec![1, 3, 5]);
}

#[test]
fn test_right_skewed() {
    let root = build_bst(&[1, 3, 5]);
    let head = bst_to_dll(root);
    let forward = dll_to_vec_forward(&head, 3);
    assert_eq!(forward, vec![1, 3, 5]);
}

#[test]
fn test_balanced() {
    let root = build_bst(&[4, 2, 6, 1, 3, 5, 7]);
    let head = bst_to_dll(root);
    let forward = dll_to_vec_forward(&head, 7);
    assert_eq!(forward, vec![1, 2, 3, 4, 5, 6, 7]);
    let backward = dll_to_vec_backward(&head, 7);
    assert_eq!(backward, vec![7, 6, 5, 4, 3, 2, 1]);
}

#[test]
fn walks_go_round_the_ring() {
    let head = bst_to_dll(build_bst(&[2, 1, 3]));
    assert_eq!(dll_to_vec_forward(&head, 7), vec![1, 2, 3, 1, 2, 3, 1]);
    assert_eq!(dll_to_vec_backward(&head, 5), vec![3, 2, 1, 3, 2]);
    assert_eq!(dll_to_vec_forward(&head, 0), Vec::<i32>::new());
    assert_eq!(dll_to_vec_forward(&head, 2), vec![1, 2]);
}

#[test]
fn walks_of_the_empty_list_are_empty() {
    let head = bst_to_dll(None);
    assert_eq!(dll_to_vec_forward(&head, 3), Vec::<i32>::new());
    assert_eq!(dll_to_vec_backward(&head, 3), Vec::<i32>::new());
}

#[test]
fn insert_puts_equal_values_to_the_right() {
    let mut root: Tree = None;
    insert_bst(&mut root, 5);
    insert_bst(&mut root, 5);
    insert_bst(&mut root, 2);
    let mut expected = TreeNode::new(5);
    expected.left = Some(Box::new(TreeNode::new(2)));
    expected.right = Some(Box::new(TreeNode::new(5)));
    assert_eq!(root, Some(Box::new(expected)));
    assert_eq!(dll_to_vec_forward(&bst_to_dll(root), 3), vec![2, 5, 5]);
}

#[test]
fn links_out_of_range_are_found() {
    let ring = bst_to_dll(build_bst(&[2, 1, 3]));
    assert!(has_links_in_range(&ring));
    let broken = Dll {
        nodes: vec![DllNode { val: 1, left: None, right: Some(1) }],
        head: Some(0),
    };
    assert!(!has_links_in_range(&broken));
    let headless = Dll { nodes: Vec::new(), head: Some(0) };
    assert!(!has_links_in_range(&headless));
}

#[test]
fn a_walk_stops_where_a_link_is_missing() {
    let chain = Dll {
        nodes: vec![
            DllNode { val: 1, left: None, right: Some(1) },
            DllNode { val: 2, left: Some(0), right: None },
        ],
        head: Some(0),
    };
    assert!(has_links_in_range(&chain));
    assert_eq!(dll_to_vec_forward(&chain, 5), vec![1, 2]);
    assert_eq!(dll_to_vec_backward(&chain, 5), Vec::<i32>::new());
}
