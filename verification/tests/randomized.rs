use rand::Rng;
use tlist::{Color, TList};

fn assert_color_invariants<T>(tree: &TList<T>) {
    let mut queue = Vec::new();
    queue.push((tree.root_idx(), true));

    while let Some((idx, should_be_black)) = queue.pop() {
        if let Some(node) = tree.node_at(idx) {
            if should_be_black {
                assert_eq!(node.color, Color::Black);
            }
            let child_should_be_black = match node.color {
                Color::Red => true,
                Color::Black => false,
            };

            if let Some(left) = node.left {
                queue.push((left, child_should_be_black));
            }

            if let Some(right) = node.right {
                queue.push((right, child_should_be_black));
            }
        }
    }
}

#[test]
fn test_get_randomized() {
    let mut test_data: Vec<i32> = Vec::with_capacity(10000);
    let mut rng = rand::thread_rng();
    for _ in 0..10000 {
        test_data.push(rng.gen::<i32>());
    }

    let test_tree = TList::<i32>::from_data(&test_data);

    for i in 0..10000 {
        assert_eq!(Some(&test_data[i]), test_tree.get(i));
    }
}

#[test]
fn test_get_mut_randomized() {
    let mut test_data: Vec<i32> = Vec::with_capacity(10000);
    let mut rng = rand::thread_rng();
    for _ in 0..10000 {
        test_data.push(rng.gen::<i32>());
    }

    let mut test_tree = TList::<i32>::from_data(&test_data);

    for i in 0..10000 {
        assert_eq!(Some(&mut test_data[i]), test_tree.get_mut(i));
    }
}

#[test]
fn test_iter_rand() {
    let mut test_data: Vec<i32> = Vec::with_capacity(10000);
    let mut rng = rand::thread_rng();
    for _ in 0..10000 {
        test_data.push(rng.gen::<i32>());
    }

    let test_list = TList::<i32>::from_data(&test_data);
    let mut test_iter = test_list.iter();
    let mut idx = 0usize;
    while let Some(data_val) = test_iter.next() {
        assert_eq!(&test_data[idx], data_val);
        idx += 1;
    }
    assert_eq!(idx, 10000);
}

#[test]
fn test_insert_random() {
    let mut rng = rand::thread_rng();
    let size = rng.gen_range::<usize>(1000, 5000);
    let mut test_list = TList::<i32>::with_capacity(size);
    let mut test_vec = Vec::with_capacity(size);
    test_list.push(size as i32);
    assert_eq!(test_list.get(0), Some(&(size as i32)));
    test_vec.push(size as i32);

    for i in 0..(size - 1) {
        let loc = rng.gen_range::<usize>(0, test_list.len());
        test_list.insert(i as i32, loc);
        test_vec.insert(loc, i as i32);
    }

    let mut walk = test_list.iter();
    let mut idx = 0usize;
    while let Some(got) = walk.next() {
        assert_eq!(got, &test_vec[idx]);
        idx += 1;
    }
    assert_eq!(idx, test_vec.len());
}

#[test]
fn assert_color_invs_from_data_random() {
    let mut rng = rand::thread_rng();
    for _ in 0..100 {
        let test_size = rng.gen_range::<usize>(100usize, 5000usize);
        let mut test_data = Vec::with_capacity(test_size);
        for i in 0..test_size {
            test_data.push(i);
        }

        let test_list = TList::<usize>::from_data(&test_data);
        assert_color_invariants(&test_list);
    }
}

#[test]
fn assert_color_invs_insert_random() {
    let mut rng = rand::thread_rng();
    for _ in 0..10 {
        let test_size = rng.gen_range::<usize>(50usize, 200usize);
        let mut test_data = Vec::with_capacity(test_size);
        for i in 0..(test_size) {
            test_data.push(i);
        }

        let mut test_list = TList::<usize>::from_data(&test_data);
        for i in 0..(test_size) {
            let insert_loc = rng.gen_range::<usize>(0, test_list.len());
            test_list.insert(i, insert_loc);
            assert_color_invariants(&test_list);
        }
    }
}

#[test]
fn random_edits_match_vec() {
    let mut rng = rand::thread_rng();
    let mut list = TList::<u64>::with_capacity(8);
    let mut model: Vec<u64> = Vec::new();
    for step in 0..4000u64 {
        if model.is_empty() || rng.gen_range::<usize>(0, 3) > 0 {
            let at = rng.gen_range::<usize>(0, model.len() + 1);
            list.insert(step, at);
            model.insert(at, step);
        } else {
            let at = rng.gen_range::<usize>(0, model.len());
            assert_eq!(list.remove(at), Some(model.remove(at)));
        }
        assert_eq!(list.len(), model.len());
        if step % 100 == 0 {
            assert_color_invariants(&list);
            for i in 0..model.len() {
                assert_eq!(list.get(i), Some(&model[i]));
            }
        }
    }
}
