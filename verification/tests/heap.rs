use sorter::heap::{Leaf, WinnerHeap};

fn test_new(items: Vec<u32>, expected_internal: Vec<Option<usize>>, expected_leaves: Vec<Leaf<u32>>) {
    let winner_tree = WinnerHeap::new(items);

    assert_eq!(winner_tree.internal, expected_internal);
    assert_eq!(winner_tree.leaves, expected_leaves);
    assert_eq!(winner_tree.last_pop, None);
}

#[test]
fn test_new_0() {
    test_new(
        vec![],
        vec![],
        vec![]
    );
}

#[test]
fn test_new_1() {
    test_new(
        vec![ 4 ],
        vec![ Some(0) ],
        vec![ Leaf::new(4) ]
    );
}

#[test]
fn test_new_2() {
    test_new(
        vec![ 4, 7 ],
        vec![ Some(1) ],
        vec![ Leaf::new(4), Leaf::new(7) ]
    );
}

#[test]
fn test_new_3() {
    test_new(
        vec![ 4, 7, 2 ],
        vec![ Some(1), Some(1), Some(2) ],
        vec![ Leaf::new(4), Leaf::new(7), Leaf::new(2) ]
    );
}

#[test]
fn test_new_4() {
    test_new(
        vec![ 4, 7, 2, 8 ],
        vec![ Some(3), Some(1), Some(3) ],
        vec![ Leaf::new(4), Leaf::new(7), Leaf::new(2), Leaf::new(8) ]
    );
}

#[test]
fn test_new_5() {
    test_new(
        vec![ 4, 7, 2, 8, 13 ],
        vec![ Some(4), Some(3), Some(4), Some(1), Some(3), Some(4), None ],
        vec![
            Leaf::new(4), Leaf::new(7), Leaf::new(2), Leaf::new(8),
            Leaf::new(13)
        ]
    );
}

#[test]
fn test_new_6() {
    test_new(
        vec![ 4, 7, 2, 8, 13, 1 ],
        vec![ Some(4), Some(3), Some(4), Some(1), Some(3), Some(4), None ],
        vec![
            Leaf::new(4), Leaf::new(7), Leaf::new(2), Leaf::new(8),
            Leaf::new(13), Leaf::new(1)
        ]
    );
}

#[test]
fn test_new_7() {
    test_new(
        vec![ 4, 7, 2, 8, 13, 1, 5 ],
        vec![ Some(4), Some(3), Some(4), Some(1), Some(3), Some(4), Some(6) ],
        vec![
            Leaf::new(4), Leaf::new(7), Leaf::new(2), Leaf::new(8),
            Leaf::new(13), Leaf::new(1), Leaf::new(5)
        ]
    );
}

#[test]
fn test_new_8() {
    test_new(
        vec![ 4, 7, 2, 8, 13, 1, 5, 23 ],
        vec![ Some(7), Some(3), Some(7), Some(1), Some(3), Some(4), Some(7) ],
        vec![
            Leaf::new(4), Leaf::new(7), Leaf::new(2), Leaf::new(8),
            Leaf::new(13), Leaf::new(1), Leaf::new(5), Leaf::new(23)
        ]
    );
}

#[test]
fn test_pop_1() {
    let mut winner_tree = WinnerHeap::new(vec![ 4 ]);

    assert_eq!(winner_tree.pop(), Some(4));
    assert_eq!(winner_tree.pop(), None);
}

#[test]
fn test_pop_2() {
    let mut winner_tree = WinnerHeap::new(vec![ 4, 2 ]);

    assert_eq!(winner_tree.pop(), Some(4));
    assert_eq!(winner_tree.pop(), Some(2));
    assert_eq!(winner_tree.pop(), None);
}

#[test]
fn test_pop_8() {
    let mut winner_tree = WinnerHeap::new(vec![ 4, 7, 2, 8, 13, 1, 5, 23 ]);

    assert_eq!(winner_tree.pop(), Some(23));
    assert_eq!(winner_tree.pop(), Some(13));
    assert_eq!(winner_tree.pop(), Some(8));
    assert_eq!(winner_tree.pop(), Some(7));
    assert_eq!(winner_tree.pop(), Some(5));
    assert_eq!(winner_tree.pop(), Some(4));
    assert_eq!(winner_tree.pop(), Some(2));
    assert_eq!(winner_tree.pop(), Some(1));

    assert_eq!(winner_tree.pop(), None);
}

#[test]
fn test_push_pop() {
    let mut winner_tree = WinnerHeap::new(vec![ 4, 7, 2 ]);

    assert_eq!(winner_tree.pop(), Some(7));
    winner_tree.push(13);
    assert_eq!(winner_tree.pop(), Some(13));
    assert_eq!(winner_tree.pop(), Some(4));
    winner_tree.push(1);
    assert_eq!(winner_tree.pop(), Some(2));
    assert_eq!(winner_tree.pop(), Some(1));
    winner_tree.push(5);
    assert_eq!(winner_tree.pop(), Some(5));
    assert_eq!(winner_tree.pop(), None);
}

#[test]
fn test_pop_push() {
    let mut winner_tree = WinnerHeap::new(vec![ 4, 7, 2 ]);

    assert_eq!(winner_tree.pop_push(14), Some(7));
    assert_eq!(winner_tree.pop_push(3), Some(14));
    assert_eq!(winner_tree.pop_push(4), Some(4));
}

#[test]
fn test_peek_keeps_tree() {
    let winner_tree = WinnerHeap::new(vec![ 4, 7, 2 ]);

    assert_eq!(winner_tree.peek(), Some(&7));
    assert_eq!(winner_tree.peek(), Some(&7));
}

#[test]
fn test_init_internal_structure() {
    assert_eq!(sorter::heap::init_internal_structure(0).len(), 0);
    assert_eq!(sorter::heap::init_internal_structure(1).len(), 1);
    assert_eq!(sorter::heap::init_internal_structure(5).len(), 7);
    assert_eq!(sorter::heap::init_internal_structure(8).len(), 7);
    assert_eq!(sorter::heap::init_internal_structure(9).len(), 15);
}

#[test]
fn test_leaf_take_and_fill() {
    let mut leaf = Leaf::new(3u32);
    assert_eq!(leaf.take_value(), Some(3));
    assert_eq!(leaf.value, None);
    leaf.fill_value(9);
    assert_eq!(leaf.value, Some(9));
}
