use tlist::{Color, Node, TList, INITIAL_SIZE};

fn collect<T: Clone>(list: &TList<T>) -> Vec<T> {
    let mut out = Vec::new();
    let mut walk = list.iter();
    while let Some(item) = walk.next() {
        out.push(item.clone());
    }
    out
}

/// Walks the subtree below `link` and returns its size and its black height.
fn measure_subtree<T>(tree: &TList<T>, link: Option<usize>, parent: Option<usize>) -> (usize, usize) {
    match link {
        None => (0, 0),
        Some(idx) => {
            let node = tree.node_at(idx).unwrap();
            assert_eq!(node.parent, parent);
            let (left_size, left_black) = measure_subtree(tree, node.left, Some(idx));
            let (right_size, right_black) = measure_subtree(tree, node.right, Some(idx));
            assert_eq!(node.size, 1 + left_size + right_size);
            assert_eq!(left_black, right_black);
            let own = if node.color == Color::Black { 1 } else { 0 };
            (node.size, left_black + own)
        }
    }
}

#[test]
fn new_list_is_empty() {
    let list = TList::<u8>::new();
    assert_eq!(list.len(), 0);
    assert_eq!(list.capacity(), INITIAL_SIZE);
    assert_eq!(list.capacity(), 256);
    assert_eq!(list.get(0), None);
    assert!(list.iter().next().is_none());
}

#[test]
fn with_capacity_sets_capacity() {
    let list = TList::<u8>::with_capacity(7);
    assert_eq!(list.len(), 0);
    assert_eq!(list.capacity(), 7);
    for idx in 0..7 {
        assert!(list.node_at(idx).is_none());
    }
    assert!(list.node_at(7).is_none());
}

#[test]
fn capacity_grows_by_half_and_one() {
    let mut list = TList::<u8>::with_capacity(0);
    list.push(1);
    assert_eq!(list.capacity(), 1);
    list.push(2);
    assert_eq!(list.capacity(), 2);
    list.push(3);
    assert_eq!(list.capacity(), 4);
    list.push(4);
    assert_eq!(list.capacity(), 4);
    list.push(5);
    assert_eq!(list.capacity(), 7);
    assert_eq!(list.remove(0), Some(1));
    assert_eq!(list.capacity(), 7);
    assert_eq!(collect(&list), vec![2, 3, 4, 5]);
}

#[test]
fn round_trip_of_empty_sequence() {
    let data: Vec<u32> = Vec::new();
    let list = TList::<u32>::from_data(&data);
    assert_eq!(list.len(), 0);
    assert_eq!(list.capacity(), 0);
    assert_eq!(collect(&list), data);
}

#[test]
fn round_trip_of_single_element() {
    let list = TList::<u32>::from_data(&[77]);
    assert_eq!(list.len(), 1);
    assert_eq!(list.root_idx(), 0);
    assert_eq!(collect(&list), vec![77]);
    let root = list.node_at(0).unwrap();
    assert_eq!(root.color, Color::Black);
    assert_eq!(root.size, 1);
}

#[test]
fn round_trip_of_ten_thousand() {
    let data: Vec<usize> = (0..10000).collect();
    let list = TList::<usize>::from_data(&data);
    assert_eq!(list.len(), 10000);
    assert_eq!(list.root_idx(), 5000);
    assert_eq!(collect(&list), data);
    let (size, _) = measure_subtree(&list, Some(list.root_idx()), None);
    assert_eq!(size, 10000);
}

#[test]
fn built_list_of_four_is_not_black_balanced() {
    // The root is black, its children are red, and only the left child has
    // a child of its own, which is black.
    let list = TList::<u8>::from_data(&[0, 1, 2, 3]);
    assert_eq!(list.root_idx(), 2);
    assert_eq!(list.node_at(2).unwrap().color, Color::Black);
    assert_eq!(list.node_at(1).unwrap().color, Color::Red);
    assert_eq!(list.node_at(3).unwrap().color, Color::Red);
    assert_eq!(list.node_at(0).unwrap().color, Color::Black);
    assert_eq!(list.node_at(1).unwrap().left, Some(0));
    assert_eq!(list.node_at(3).unwrap().left, None);
    assert_eq!(list.node_at(3).unwrap().right, None);
}

#[test]
fn insert_get_remove_scenario() {
    let data: Vec<usize> = vec![0, 1, 2, 3, 4, 5, 6, 7, 8, 9];
    let mut list = TList::<usize>::from_data(&data);
    assert_eq!(list.node_at(list.root_idx()).unwrap().data, 5);
    assert_eq!(list.get(5), Some(&5));
    list.insert(99, 0);
    assert_eq!(list.get(0), Some(&99));
    assert_eq!(list.get(1), Some(&0));
    assert_eq!(list.len(), 11);
    assert_eq!(list.remove(0), Some(99));
    assert_eq!(collect(&list), data);
}

#[test]
fn insert_at_length_is_push() {
    let mut pushed = TList::<u32>::from_data(&[1, 2, 3]);
    let mut inserted = TList::<u32>::from_data(&[1, 2, 3]);
    pushed.push(4);
    inserted.insert(4, 3);
    assert_eq!(collect(&pushed), vec![1, 2, 3, 4]);
    assert_eq!(collect(&inserted), collect(&pushed));
    assert_eq!(pushed.capacity(), 5);
    assert_eq!(inserted.capacity(), 5);
    for idx in 0..pushed.capacity() {
        let a = pushed.node_at(idx).map(|n| (n.data, n.color, n.parent, n.left, n.right, n.size));
        let b = inserted.node_at(idx).map(|n| (n.data, n.color, n.parent, n.left, n.right, n.size));
        assert_eq!(a, b);
    }
}

#[test]
fn insert_into_empty_list() {
    let mut list = TList::<u32>::new();
    list.insert(5, 0);
    assert_eq!(collect(&list), vec![5]);
    assert_eq!(list.node_at(list.root_idx()).unwrap().color, Color::Black);
    let mut other = TList::<u32>::with_capacity(0);
    other.insert(6, 17);
    assert_eq!(collect(&other), vec![6]);
}

#[test]
fn insert_beyond_length_appends() {
    let mut list = TList::<u32>::from_data(&[1, 2, 3]);
    list.insert(9, 1000);
    assert_eq!(collect(&list), vec![1, 2, 3, 9]);
}

#[test]
fn insert_or_push_chooses_by_index() {
    let mut list = TList::<u32>::from_data(&[1, 2, 3]);
    list.insert_or_push(8, 1);
    assert_eq!(collect(&list), vec![1, 8, 2, 3]);
    list.insert_or_push(9, 4);
    assert_eq!(collect(&list), vec![1, 8, 2, 3, 9]);
    list.insert_or_push(7, usize::MAX);
    assert_eq!(collect(&list), vec![1, 8, 2, 3, 9, 7]);
}

#[test]
fn get_at_length_is_absent() {
    let list = TList::<u32>::from_data(&[1, 2, 3]);
    assert_eq!(list.get(2), Some(&3));
    assert_eq!(list.get(3), None);
    assert_eq!(list.get(4), None);
    assert_eq!(list.search(3), None);
    assert_eq!(list.search(1), Some(1));
}

#[test]
fn get_mut_changes_one_element() {
    let mut list = TList::<u32>::from_data(&[1, 2, 3]);
    if let Some(slot) = list.get_mut(1) {
        assert_eq!(*slot, 2);
        *slot = 20;
    }
    assert!(list.get_mut(3).is_none());
    assert_eq!(collect(&list), vec![1, 20, 3]);
}

#[test]
fn pop_takes_the_last() {
    let mut list = TList::<u32>::from_data(&[1, 2, 3]);
    assert_eq!(list.pop(), Some(3));
    assert_eq!(list.pop(), Some(2));
    assert_eq!(list.pop(), Some(1));
    assert_eq!(list.pop(), None);
    assert_eq!(list.len(), 0);
    list.push(4);
    assert_eq!(collect(&list), vec![4]);
}

#[test]
fn iter_starts_afresh_and_counts_down() {
    let list = TList::<u32>::from_data(&[4, 5, 6]);
    let mut first = list.iter();
    assert_eq!(first.size_hint(), (3, Some(3)));
    assert_eq!(first.next(), Some(&4));
    assert_eq!(first.size_hint(), (2, Some(2)));
    let mut second = list.iter();
    assert_eq!(second.next(), Some(&4));
    assert_eq!(first.next(), Some(&5));
    assert_eq!(first.next(), Some(&6));
    assert_eq!(first.next(), None);
    assert_eq!(first.next(), None);
    assert_eq!(first.size_hint(), (0, Some(0)));
}

#[test]
fn into_iter_hands_out_in_order() {
    let mut list = TList::<String>::new();
    list.push(String::from("b"));
    list.push(String::from("c"));
    list.insert(String::from("a"), 0);
    let mut walk = list.into_iter();
    assert_eq!(walk.size_hint(), (3, Some(3)));
    assert_eq!(walk.next(), Some(String::from("a")));
    assert_eq!(walk.next(), Some(String::from("b")));
    assert_eq!(walk.size_hint(), (1, Some(1)));
    assert_eq!(walk.next(), Some(String::from("c")));
    assert_eq!(walk.next(), None);
    assert_eq!(walk.size_hint(), (0, Some(0)));
}

#[test]
fn traverse_maps_every_element() {
    let mut list = TList::<u32>::from_data(&[1, 2, 3, 4, 5]);
    list.insert(0, 0);
    list.traverse(&|x: u32| x * 10 + 1);
    assert_eq!(collect(&list), vec![1, 11, 21, 31, 41, 51]);
    assert_eq!(list.len(), 6);
}

#[test]
fn sizes_add_up_after_edits() {
    let mut list = TList::<usize>::new();
    for i in 0..300 {
        list.insert(i, (i * 7) % (i + 1));
        let (size, _) = measure_subtree(&list, Some(list.root_idx()), None);
        assert_eq!(size, i + 1);
        assert_eq!(list.node_at(list.root_idx()).unwrap().size, list.len());
    }
    for i in 0..300 {
        let at = (i * 13) % list.len();
        assert!(list.remove(at).is_some());
        if list.len() > 0 {
            let (size, _) = measure_subtree(&list, Some(list.root_idx()), None);
            assert_eq!(size, list.len());
        }
    }
}

#[test]
fn rotation_relinks_and_resizes() {
    let mut list = TList::<usize>::from_data(&[0, 1, 2, 3, 4]);
    assert_eq!(list.root_idx(), 2);
    list.left_rotate(2);
    assert_eq!(list.root_idx(), 3);
    let top = list.node_at(3).unwrap();
    assert_eq!((top.parent, top.left, top.right, top.size), (None, Some(2), Some(4), 5));
    let low = list.node_at(2).unwrap();
    assert_eq!((low.parent, low.left, low.right, low.size), (Some(3), Some(1), None, 3));
    assert_eq!(collect(&list), vec![0, 1, 2, 3, 4]);
    list.right_rotate(3);
    assert_eq!(list.root_idx(), 2);
    let top = list.node_at(2).unwrap();
    assert_eq!((top.parent, top.left, top.right, top.size), (None, Some(1), Some(3), 5));
    let low = list.node_at(3).unwrap();
    assert_eq!((low.parent, low.left, low.right, low.size), (Some(2), None, Some(4), 2));
    assert_eq!(collect(&list), vec![0, 1, 2, 3, 4]);
}

#[test]
fn parts_round_trip() {
    let mut list = TList::<u32>::with_capacity(3);
    list.push(1);
    list.push(2);
    let (nodes, free, root) = list.into_parts();
    assert_eq!(nodes.len(), 3);
    assert_eq!(free.len(), 1);
    let again = TList::<u32>::from_parts(nodes, free, root).unwrap();
    assert_eq!(collect(&again), vec![1, 2]);
    assert_eq!(again.capacity(), 3);
}

#[test]
fn unsound_parts_are_refused() {
    let leaf = |data: u32, color: Color, parent: Option<usize>| Node {
        data,
        color,
        parent,
        left: None,
        right: None,
        size: 1,
    };
    // a single black root
    assert!(TList::from_parts(vec![Some(leaf(1, Color::Black, None))], vec![], 0).is_some());
    // a red root
    assert!(TList::from_parts(vec![Some(leaf(1, Color::Red, None))], vec![], 0).is_none());
    // a root that names a parent
    assert!(TList::from_parts(vec![Some(leaf(1, Color::Black, Some(0)))], vec![], 0).is_none());
    // a wrong size
    let mut big = leaf(1, Color::Black, None);
    big.size = 2;
    assert!(TList::from_parts(vec![Some(big)], vec![], 0).is_none());
    // an occupied slot on the free list
    assert!(TList::from_parts(vec![Some(leaf(1, Color::Black, None))], vec![0], 0).is_none());
    // a free slot that is not listed
    assert!(TList::from_parts(vec![Some(leaf(1, Color::Black, None)), None], vec![], 0).is_none());
    // a free slot listed twice
    assert!(TList::from_parts(vec![Some(leaf(1, Color::Black, None)), None, None], vec![1, 1], 0)
        .is_none());
    // a node that the root does not reach
    assert!(TList::from_parts(
        vec![Some(leaf(1, Color::Black, None)), Some(leaf(2, Color::Black, None))],
        vec![],
        0
    )
    .is_none());
    // a red child below a red node
    let mut root = leaf(1, Color::Black, None);
    root.right = Some(1);
    root.size = 3;
    let mut mid = leaf(2, Color::Red, Some(0));
    mid.right = Some(2);
    mid.size = 2;
    let low = leaf(3, Color::Red, Some(1));
    assert!(TList::from_parts(vec![Some(root), Some(mid), Some(low)], vec![], 0).is_none());
    // the same with a black node in the middle
    let mut root = leaf(1, Color::Black, None);
    root.right = Some(1);
    root.size = 3;
    let mut mid = leaf(2, Color::Black, Some(0));
    mid.right = Some(2);
    mid.size = 2;
    let low = leaf(3, Color::Red, Some(1));
    let list = TList::from_parts(vec![Some(root), Some(mid), Some(low)], vec![], 0).unwrap();
    assert_eq!(collect(&list), vec![1, 2, 3]);
    // an empty list keeps its root handle
    let empty = TList::<u32>::from_parts(vec![None, None], vec![1, 0], 5).unwrap();
    assert_eq!(empty.len(), 0);
    assert_eq!(empty.root_idx(), 5);
    // a child on both sides
    let mut root = leaf(1, Color::Black, None);
    root.left = Some(1);
    root.right = Some(1);
    root.size = 3;
    let kid = leaf(2, Color::Red, Some(0));
    assert!(TList::from_parts(vec![Some(root), Some(kid)], vec![], 0).is_none());
}

#[test]
fn slots_are_used_from_the_end_of_the_free_list() {
    let mut list = TList::<u32>::with_capacity(3);
    assert_eq!(list.clone().into_parts().1, vec![0, 1, 2]);
    list.push(10);
    assert_eq!(list.node_at(2).map(|n| n.data), Some(10));
    assert_eq!(list.clone().into_parts().1, vec![0, 1]);
    list.push(11);
    list.push(12);
    assert_eq!(list.node_at(1).map(|n| n.data), Some(11));
    assert_eq!(list.node_at(0).map(|n| n.data), Some(12));
    assert!(list.clone().into_parts().1.is_empty());
    // a full store of three slots grows by two, and the last new slot is used
    list.push(13);
    assert_eq!(list.capacity(), 5);
    assert_eq!(list.node_at(4).map(|n| n.data), Some(13));
    assert_eq!(list.clone().into_parts().1, vec![3]);
}

#[test]
fn freed_slot_is_used_next() {
    let mut list = TList::<u32>::from_data(&[0, 1, 2, 3, 4, 5, 6]);
    // the node at rank 1 has two children: the slot of the next rank is freed
    assert_eq!(list.remove(1), Some(1));
    assert!(list.node_at(2).is_none());
    assert_eq!(list.node_at(1).map(|n| n.data), Some(2));
    assert_eq!(list.clone().into_parts().1, vec![2]);
    // a leaf gives up its own slot
    assert_eq!(list.remove(0), Some(0));
    assert!(list.node_at(0).is_none());
    assert_eq!(list.clone().into_parts().1, vec![2, 0]);
    list.insert(70, 3);
    assert_eq!(list.node_at(0).map(|n| n.data), Some(70));
    assert_eq!(list.clone().into_parts().1, vec![2]);
    assert_eq!(collect(&list), vec![2, 3, 4, 70, 5, 6]);
    assert_eq!(list.capacity(), 7);
}

#[test]
fn clone_copies_every_slot() {
    let mut list = TList::<String>::with_capacity(4);
    list.push(String::from("a"));
    list.push(String::from("c"));
    list.insert(String::from("b"), 1);
    let mut copy = list.clone();
    assert_eq!(collect(&copy), collect(&list));
    assert_eq!(copy.capacity(), list.capacity());
    assert_eq!(copy.root_idx(), list.root_idx());
    for idx in 0..list.capacity() {
        let a = list.node_at(idx).map(|n| (n.data.clone(), n.color, n.parent, n.left, n.right, n.size));
        let b = copy.node_at(idx).map(|n| (n.data.clone(), n.color, n.parent, n.left, n.right, n.size));
        assert_eq!(a, b);
    }
    copy.push(String::from("d"));
    assert_eq!(copy.len(), 4);
    assert_eq!(list.len(), 3);
    assert_eq!(list.into_parts().1, vec![0]);
}

/// The greatest number of nodes on a path from `link` down to an absent child.
fn longest_path<T>(tree: &TList<T>, link: Option<usize>) -> u32 {
    match link {
        None => 0,
        Some(idx) => {
            let node = tree.node_at(idx).unwrap();
            1 + longest_path(tree, node.left).max(longest_path(tree, node.right))
        }
    }
}

#[test]
fn paths_stay_short() {
    let mut list = TList::<usize>::new();
    for i in 0..5000 {
        list.push(i);
    }
    let depth = longest_path(&list, Some(list.root_idx()));
    assert!(2usize.pow(depth / 2) <= list.len() + 1);
    for _ in 0..4000 {
        assert!(list.remove(0).is_some());
    }
    let depth = longest_path(&list, Some(list.root_idx()));
    assert!(2usize.pow(depth / 2) <= list.len() + 1);
    assert_eq!(collect(&list), (4000..5000).collect::<Vec<usize>>());
}
