use tlist::{Color, TList};

fn assert_color_invariants<T>(tree: &TList<T>) {
    let mut queue = Vec::new();
    queue.push((tree.root_idx(), true));

    while let Some((idx, should_be_black)) = queue.pop() {
        if let Some(node) = tree.node_at(idx) {
            if should_be_black {
                assert_eq!(node.color, Color::Black);
            }
            let child_should_be_black = match node.color {
                Color::Red => true,
                Color::Black => false,
            };

            if let Some(left) = node.left {
                queue.push((left, child_should_be_black));
            }

            if let Some(right) = node.right {
                queue.push((right, child_should_be_black));
            }
        }
    }
}

/// Walks the subtree below `link` and returns its size and its black height.
fn measure_subtree<T>(tree: &TList<T>, link: Option<usize>, parent: Option<usize>) -> (usize, usize) {
    match link {
        None => (0, 0),
        Some(idx) => {
            let node = tree.node_at(idx).unwrap();
            assert_eq!(node.parent, parent);
            if node.color == Color::Red {
                if let Some(p) = parent {
                    assert_eq!(tree.node_at(p).unwrap().color, Color::Black);
                }
            }
            let (left_size, left_black) = measure_subtree(tree, node.left, Some(idx));
            let (right_size, right_black) = measure_subtree(tree, node.right, Some(idx));
            assert_eq!(node.size, 1 + left_size + right_size);
            assert_eq!(left_black, right_black);
            let own = if node.color == Color::Black { 1 } else { 0 };
            (node.size, left_black + own)
        }
    }
}

fn assert_red_black<T>(tree: &TList<T>) {
    if tree.len() == 0 {
        return;
    }
    let root = tree.root_idx();
    assert_eq!(tree.node_at(root).unwrap().color, Color::Black);
    let (size, _) = measure_subtree(tree, Some(root), None);
    assert_eq!(size, tree.len());
}

fn next_random(seed: &mut u64) -> usize {
    *seed = seed.wrapping_mul(6364136223846793005).wrapping_add(1442695040888963407);
    (*seed >> 33) as usize
}

#[test]
fn assert_color_invs_delete() {
    let test_data = vec![0i32, 1i32, 2i32, 3i32, 4i32, 5i32];
    let mut test_list = TList::<i32>::from_data(&test_data);
    assert_eq!(Some(3), test_list.remove(3));
    assert_color_invariants(&test_list);
}

#[test]
fn remove_out_of_range_is_absent() {
    let mut list = TList::<u8>::from_data(&[1, 2, 3]);
    assert_eq!(list.remove(3), None);
    assert_eq!(list.remove(usize::MAX), None);
    assert_eq!(list.len(), 3);
    assert_eq!(list.get(3), None);
    let mut empty = TList::<u8>::new();
    assert_eq!(empty.remove(0), None);
    assert_eq!(empty.pop(), None);
}

#[test]
fn remove_every_rank_of_small_lists() {
    for n in 1..40usize {
        let data: Vec<usize> = (0..n).collect();
        for at in 0..n {
            let mut list = TList::<usize>::new();
            for v in data.iter() {
                list.push(*v);
            }
            assert_red_black(&list);
            let mut model = data.clone();
            assert_eq!(list.remove(at), Some(model.remove(at)));
            assert_red_black(&list);
            assert_eq!(list.len(), model.len());
            for i in 0..model.len() {
                assert_eq!(list.get(i), Some(&model[i]));
            }
        }
    }
}

#[test]
fn insert_and_remove_match_vec() {
    let mut list = TList::<u32>::with_capacity(0);
    let mut model: Vec<u32> = Vec::new();
    let mut seed: u64 = 99;
    for step in 0..6000u32 {
        let grow = model.is_empty() || next_random(&mut seed) % 5 < 3;
        if grow {
            let at = next_random(&mut seed) % (model.len() + 1);
            list.insert(step, at);
            model.insert(at, step);
        } else {
            let at = next_random(&mut seed) % model.len();
            assert_eq!(list.remove(at), Some(model.remove(at)));
        }
        assert_eq!(list.len(), model.len());
        if step % 50 == 0 {
            assert_red_black(&list);
            for i in 0..model.len() {
                assert_eq!(list.get(i), Some(&model[i]));
            }
        }
    }
    while let Some(expected) = model.pop() {
        assert_eq!(list.pop(), Some(expected));
    }
    assert_eq!(list.len(), 0);
    assert_eq!(list.pop(), None);
}

#[test]
fn remove_from_built_list_keeps_order() {
    for n in 1..60usize {
        let data: Vec<usize> = (0..n).collect();
        let mut list = TList::<usize>::from_data(&data);
        let mut model = data.clone();
        let mut seed: u64 = n as u64;
        while !model.is_empty() {
            let at = next_random(&mut seed) % model.len();
            assert_eq!(list.remove(at), Some(model.remove(at)));
            assert_color_invariants(&list);
            let mut walk = list.iter();
            let mut i = 0;
            while let Some(got) = walk.next() {
                assert_eq!(*got, model[i]);
                i += 1;
            }
            assert_eq!(i, model.len());
        }
    }
}

#[test]
fn edited_list_can_be_put_together_again() {
    let mut list = TList::<u32>::with_capacity(1);
    let mut model: Vec<u32> = Vec::new();
    let mut seed: u64 = 4242;
    for step in 0..3000u32 {
        let grow = model.is_empty() || next_random(&mut seed) % 7 < 4;
        if grow {
            let at = next_random(&mut seed) % (model.len() + 1);
            list.insert(step, at);
            model.insert(at, step);
        } else {
            let at = next_random(&mut seed) % model.len();
            assert_eq!(list.remove(at), Some(model.remove(at)));
        }
        if step % 25 == 0 {
            let (nodes, free, root) = list.clone().into_parts();
            assert_eq!(nodes.len() - free.len(), model.len());
            let again = TList::from_parts(nodes, free, root).unwrap();
            assert_eq!(again.len(), model.len());
            for i in 0..model.len() {
                assert_eq!(again.get(i), Some(&model[i]));
            }
        }
    }
}

#[test]
fn built_list_can_be_put_together_again() {
    for n in 0..200usize {
        let data: Vec<usize> = (0..n).collect();
        let (nodes, free, root) = TList::<usize>::from_data(&data).into_parts();
        assert!(free.is_empty());
        assert!(TList::from_parts(nodes, free, root).is_some());
    }
}
