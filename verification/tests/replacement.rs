use avl_tree::node::{AVLNode, Side};

#[test]
fn test_replacement_node() {
    let level3_node1 = AVLNode { value: 4, height: 0, right: None, left: None };
    let level3_node2 = AVLNode { value: 5, height: 0, right: None, left: None };
    let level3_node3 = AVLNode { value: 6, height: 0, right: None, left: None };
    let level3_node4 = AVLNode { value: 7, height: 0, right: None, left: None };
    let level2_node1 = AVLNode {
        value: 2,
        height: 1,
        right: Some(Box::new(level3_node2)),
        left: Some(Box::new(level3_node1)),
    };
    let level2_node2 = AVLNode {
        value: 3,
        height: 1,
        right: Some(Box::new(level3_node4)),
        left: Some(Box::new(level3_node3)),
    };
    let mut root = AVLNode {
        value: 1,
        height: 2,
        right: Some(Box::new(level2_node2)),
        left: Some(Box::new(level2_node1)),
    };

    let mut replacement = root.replacement();
    assert_eq!(replacement.is_none(), false);
    assert_eq!(replacement.unwrap(), 5);

    root.left.as_mut().unwrap().left = None;
    root.left.as_mut().unwrap().right = None;
    replacement = root.replacement();
    assert_eq!(replacement.is_none(), false);
    assert_eq!(replacement.unwrap(), 2);

    root.left.as_mut().unwrap().left =
        Some(Box::new(AVLNode { value: 4, height: 0, right: None, left: None }));
    root.left.as_mut().unwrap().right =
        Some(Box::new(AVLNode { value: 5, height: 0, right: None, left: None }));

    root.rotate(Side::Right);
    assert_eq!(2, root.value);
}
