use tlist::{Color, Node, TList};

fn assert_color_invariants<T>(tree: &TList<T>) {
    let mut queue = Vec::new();
    queue.push((tree.root_idx(), true));

    while let Some((idx, should_be_black)) = queue.pop() {
        if let Some(node) = tree.node_at(idx) {
            if should_be_black {
                assert_eq!(node.color, Color::Black);
            }
            let child_should_be_black = match node.color {
                Color::Red => true,
                Color::Black => false,
            };

            if let Some(left) = node.left {
                queue.push((left, child_should_be_black));
            }

            if let Some(right) = node.right {
                queue.push((right, child_should_be_black));
            }
        }
    }
}

fn five_nodes() -> Vec<Option<Node<usize>>> {
    let mut test_node_list = Vec::<Option<Node<usize>>>::with_capacity(5);
    test_node_list.push(Some(Node {
        data: 0,
        color: Color::Red,
        parent: Some(1),
        left: None,
        right: None,
        size: 1,
    }));
    test_node_list.push(Some(Node {
        data: 1,
        color: Color::Black,
        parent: None,
        left: Some(0),
        right: Some(3),
        size: 5,
    }));
    test_node_list.push(Some(Node {
        data: 2,
        color: Color::Black,
        parent: Some(1),
        left: None,
        right: None,
        size: 1,
    }));
    test_node_list.push(Some(Node {
        data: 3,
        color: Color::Red,
        parent: Some(1),
        left: Some(2),
        right: Some(4),
        size: 3,
    }));
    test_node_list.push(Some(Node {
        data: 4,
        color: Color::Black,
        parent: Some(3),
        left: None,
        right: None,
        size: 1,
    }));
    test_node_list
}

fn assert_counts_up(tree: &TList<usize>, len: usize) {
    let mut walk = tree.iter();
    let mut expected = 0usize;
    while let Some(got) = walk.next() {
        assert_eq!(expected, *got);
        expected += 1;
    }
    assert_eq!(expected, len);
}

#[test]
fn parts_with_wrong_parent_are_refused() {
    // Slot 2 names slot 1 as its parent, but hangs below slot 3.
    let free_list = Vec::new();
    assert!(TList::<usize>::from_parts(five_nodes(), free_list, 1).is_none());
}

#[test]
fn test_rotations() {
    let mut test_node_list = five_nodes();
    if let Some(node) = test_node_list[2].as_mut() {
        node.parent = Some(3);
    }

    let free_list = Vec::new();
    let mut test_tree = TList::<usize>::from_parts(test_node_list, free_list, 1).unwrap();

    assert_color_invariants(&test_tree);
    test_tree.left_rotate(1);
    assert_eq!(3, test_tree.root_idx());
    {
        let nref = test_tree.node_at(test_tree.root_idx()).cloned();
        assert_eq!(None, nref.unwrap().parent);
    }

    assert_counts_up(&test_tree, 5);

    {
        let nref = test_tree.node_at(test_tree.root_idx()).cloned();
        assert_eq!(None, nref.unwrap().parent);
    }

    test_tree.right_rotate(3);
    assert_color_invariants(&test_tree);
    assert_counts_up(&test_tree, 5);
}
