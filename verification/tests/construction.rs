use tlist::{Color, Node, NodeLoc, TList, DEFAULT_STACK_DEPTH};

fn assert_color_invariants<T>(tree: &TList<T>) {
    let mut queue = Vec::new();
    queue.push((tree.root_idx(), true));

    while let Some((idx, should_be_black)) = queue.pop() {
        if let Some(node) = tree.node_at(idx) {
            if should_be_black {
                assert_eq!(node.color, Color::Black);
            }
            let child_should_be_black = match node.color {
                Color::Red => true,
                Color::Black => false,
            };

            if let Some(left) = node.left {
                queue.push((left, child_should_be_black));
            }

            if let Some(right) = node.right {
                queue.push((right, child_should_be_black));
            }
        }
    }
}

#[test]
fn build_from_data_test() {
    let test_data: Vec<usize> = vec![0, 1, 2, 3, 4, 5, 6, 7, 8, 9];

    let test_tree = TList::<usize>::from_data(&test_data);
    assert_eq!(test_tree.capacity(), 10);
    let mut idx = 0usize;
    while idx < test_tree.capacity() {
        let node = test_tree.node_at(idx).cloned();
        assert_eq!(Some(idx), node.map(|n| n.data));
        idx += 1;
    }

    assert_color_invariants(&test_tree);
}

#[test]
fn test_prepare_left_child() {
    let test_data: Vec<usize> = vec![0, 1, 2, 3, 4, 5, 6, 7, 8, 9];
    let mut build_stack = Vec::<NodeLoc>::with_capacity(DEFAULT_STACK_DEPTH);
    let root_node_loc = NodeLoc {
        color: Color::Black,
        parent: None,
        left_edge: 0,
        right_edge: test_data.len(),
        node_idx: test_data.len() >> 1,
    };

    let left_of_root = TList::<usize>::prepare_left_child(&mut build_stack, &root_node_loc);
    assert_eq!(1, build_stack.len());
    assert_eq!(Some((2, 5)), left_of_root);

    let next_left_loc = build_stack.pop().unwrap();
    assert_eq!(2, next_left_loc.node_idx);
    assert_eq!(Some(5), next_left_loc.parent);

    let next_left = TList::<usize>::prepare_left_child(&mut build_stack, &next_left_loc);
    assert_eq!(1, build_stack.len());
    assert_eq!(Some((1, 2)), next_left);

    let left_2_loc = build_stack.pop().unwrap();
    assert_eq!(1, left_2_loc.node_idx);
    let left_2 = TList::<usize>::prepare_left_child(&mut build_stack, &left_2_loc);
    assert_eq!(1, build_stack.len());
    assert_eq!(Some((0, 1)), left_2);

    let left_final_loc = build_stack.pop().unwrap();
    assert_eq!(0, left_final_loc.node_idx);
    let left_final = TList::<usize>::prepare_left_child(&mut build_stack, &left_final_loc);
    assert_eq!(0, build_stack.len());
    assert_eq!(None, left_final);
}

#[test]
fn test_prepare_right_child() {
    let test_data: Vec<usize> = vec![0, 1, 2, 3, 4, 5, 6, 7, 8, 9];
    let mut build_stack = Vec::<NodeLoc>::with_capacity(DEFAULT_STACK_DEPTH);
    let root_node_loc = NodeLoc {
        color: Color::Black,
        parent: Some(4),
        left_edge: 0,
        right_edge: test_data.len(),
        node_idx: test_data.len() >> 1,
    };

    let right_of_root = TList::<usize>::prepare_right_child(&mut build_stack, &root_node_loc);
    assert_eq!(1, build_stack.len());
    assert_eq!(Some((7, 4)), right_of_root);

    let next_right_loc = build_stack.pop().unwrap();
    assert_eq!(7, next_right_loc.node_idx);
    let right_2 = TList::<usize>::prepare_right_child(&mut build_stack, &next_right_loc);
    assert_eq!(1, build_stack.len());
    assert_eq!(Some((8, 2)), right_2);

    let right_2_loc = build_stack.pop().unwrap();
    assert_eq!(8, right_2_loc.node_idx);
    let right_2 = TList::<usize>::prepare_right_child(&mut build_stack, &right_2_loc);
    assert_eq!(1, build_stack.len());
    assert_eq!(Some((9, 1)), right_2);

    let right_final_loc = build_stack.pop().unwrap();
    assert_eq!(9, right_final_loc.node_idx);
    let right_final = TList::<usize>::prepare_right_child(&mut build_stack, &right_final_loc);
    assert_eq!(0, build_stack.len());
    assert_eq!(None, right_final);
}

#[test]
fn test_prepare_child_mixed() {
    let test_data: Vec<usize> = vec![0, 1, 2, 3, 4, 5, 6, 7, 8, 9];
    let mut build_stack = Vec::<NodeLoc>::with_capacity(DEFAULT_STACK_DEPTH);
    let root_node_loc = NodeLoc {
        color: Color::Black,
        parent: None,
        left_edge: 0,
        right_edge: test_data.len(),
        node_idx: test_data.len() >> 1,
    };

    TList::<usize>::prepare_left_child(&mut build_stack, &root_node_loc);
    let idx_2_loc = build_stack.pop().unwrap();
    let idx_3 = TList::<usize>::prepare_right_child(&mut build_stack, &idx_2_loc);
    assert_eq!(1, build_stack.len());
    assert_eq!(Some((3, 2)), idx_3);

    let idx_4_loc = build_stack.pop().unwrap();
    let idx_4 = TList::<usize>::prepare_right_child(&mut build_stack, &idx_4_loc);
    let idx_3_left = TList::<usize>::prepare_left_child(&mut build_stack, &idx_4_loc);
    assert_eq!(1, build_stack.len());
    assert_eq!(Some((4, 1)), idx_4);
    assert_eq!(None, idx_3_left);
}

#[test]
fn test_prepare_child_root() {
    let test_data: Vec<usize> = vec![0, 1, 2, 3, 4, 5, 6, 7, 8, 9];
    let mut build_stack = Vec::<NodeLoc>::with_capacity(DEFAULT_STACK_DEPTH);
    let root_node_loc = NodeLoc {
        color: Color::Black,
        parent: None,
        left_edge: 0,
        right_edge: test_data.len(),
        node_idx: test_data.len() >> 1,
    };

    TList::<usize>::prepare_left_child(&mut build_stack, &root_node_loc);
    TList::<usize>::prepare_right_child(&mut build_stack, &root_node_loc);
    assert_eq!(2, build_stack.len());
    assert_eq!(
        Some(NodeLoc {
            color: Color::Red,
            parent: Some(5),
            left_edge: 6,
            right_edge: 10,
            node_idx: 7
        }),
        build_stack.pop()
    );
    assert_eq!(
        Some(NodeLoc {
            color: Color::Red,
            parent: Some(5),
            left_edge: 0,
            right_edge: 5,
            node_idx: 2
        }),
        build_stack.pop()
    );
}

#[test]
fn test_node_layout() {
    let test_data: Vec<usize> = vec![0, 1, 2, 3, 4, 5, 6, 7, 8, 9];

    let test_tree = TList::<usize>::from_data(&test_data);
    assert_eq!(test_tree.root_idx(), 5);

    let mut expected_nodes = Vec::<Node<usize>>::with_capacity(10);

    // Node value 0, has no children
    expected_nodes.push(Node {
        data: 0usize,
        color: Color::Red,
        parent: Some(1),
        left: None,
        right: None,
        size: 1,
    });

    // Node value 1, has left child 0
    expected_nodes.push(Node {
        data: 1usize,
        color: Color::Black,
        parent: Some(2),
        left: Some(0),
        right: None,
        size: 2,
    });

    // Node value 2, has left 1, right 3
    expected_nodes.push(Node {
        data: 2usize,
        color: Color::Red,
        parent: Some(5),
        left: Some(1),
        right: Some(3),
        size: 5,
    });

    // Node value 3, has right 4
    expected_nodes.push(Node {
        data: 3usize,
        color: Color::Black,
        parent: Some(2),
        left: None,
        right: Some(4),
        size: 2,
    });

    // Node value 4, has no children
    expected_nodes.push(Node {
        data: 4usize,
        color: Color::Red,
        parent: Some(3),
        left: None,
        right: None,
        size: 1,
    });

    // Node value 5, root node, left 2 right 7
    expected_nodes.push(Node {
        data: 5usize,
        color: Color::Black,
        parent: None,
        left: Some(2),
        right: Some(7),
        size: 10,
    });

    // Node value 6, no children
    expected_nodes.push(Node {
        data: 6usize,
        color: Color::Black,
        parent: Some(7),
        left: None,
        right: None,
        size: 1,
    });

    // Node value 7, left 6 right 8
    expected_nodes.push(Node {
        data: 7usize,
        color: Color::Red,
        parent: Some(5),
        left: Some(6),
        right: Some(8),
        size: 4,
    });

    // Node value 8, right 9
    expected_nodes.push(Node {
        data: 8usize,
        color: Color::Black,
        parent: Some(7),
        left: None,
        right: Some(9),
        size: 2,
    });

    // Node value 9, no children
    expected_nodes.push(Node {
        data: 9usize,
        color: Color::Red,
        parent: Some(8),
        left: None,
        right: None,
        size: 1,
    });

    assert_eq!(test_tree.capacity(), expected_nodes.len());
    for (idx, expect) in expected_nodes.iter().enumerate() {
        let r_test = test_tree.node_at(idx).cloned().unwrap();
        assert_eq!(expect.data, r_test.data);
        assert_eq!(expect.color, r_test.color);
        assert_eq!(expect.parent, r_test.parent);
        assert_eq!(expect.left, r_test.left);
        assert_eq!(expect.right, r_test.right);
        assert_eq!(expect.size, r_test.size);
    }
}

#[test]
fn test_get() {
    let test_data = vec![0, 1, 2, 3, 4, 5, 6, 7, 8, 9];
    let test_tree = TList::<usize>::from_data(&test_data);

    assert_eq!(test_tree.root_idx(), 5);
    assert_eq!(test_tree.len(), 10);
    assert_eq!(test_tree.capacity(), 10);

    assert_eq!(None, test_tree.get(11));
    assert_eq!(Some(&5), test_tree.get(5));

    for i in 0..10 {
        assert_eq!(Some(&i), test_tree.get(i));
    }
}

#[test]
fn test_insert() {
    let test_data: Vec<usize> = vec![0, 1, 3, 4, 5, 6, 7, 8, 9];
    let mut test_tree = TList::<usize>::from_data(&test_data);
    test_tree.insert(2, 2);
    let mut walk = test_tree.iter();
    let mut expect = 0usize;
    while let Some(got) = walk.next() {
        assert_eq!(expect, *got);
        expect += 1;
    }
    assert_eq!(expect, 10);
    assert_color_invariants(&test_tree);
}

#[test]
fn insert_matches_vec() {
    let mut list = TList::<u32>::with_capacity(2);
    let mut model: Vec<u32> = Vec::new();
    let mut seed: u64 = 12345;
    for i in 0..2000u32 {
        seed = seed.wrapping_mul(6364136223846793005).wrapping_add(1442695040888963407);
        let at = ((seed >> 33) as usize) % (model.len() + 1);
        list.insert(i, at);
        model.insert(at, i);
        assert_color_invariants(&list);
    }
    assert_eq!(list.len(), model.len());
    for i in 0..model.len() {
        assert_eq!(list.get(i), Some(&model[i]));
    }
    assert_eq!(list.get(model.len()), None);
}
