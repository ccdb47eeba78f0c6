use blist::{LinkedLists, Node};

fn buffers<const N: usize>(list: &LinkedLists<i32, N>) -> Vec<Vec<i32>> {
    let mut out = Vec::new();
    let mut at = list.root();
    while let Some(node) = at {
        let items = node.items();
        out.push((0..items.len()).map(|i| *items.get(i).unwrap()).collect());
        at = node.next();
    }
    out
}

fn filled<const N: usize>(items: &[i32]) -> LinkedLists<i32, N> {
    let mut list = LinkedLists::<i32, N>::new();
    for &item in items {
        list.insert(item);
    }
    list
}

#[test]
fn empty_container_holds_nothing() {
    let list = LinkedLists::<i32, 4>::new();
    assert_eq!(list.len(), 0);
    assert!(list.root().is_none());
    assert_eq!(list.find(&1), None);
    assert!(!list.contains(&1));
}

#[test]
fn chain_scenario_capacity_15() {
    let mut list = LinkedLists::<i32, 15>::new();
    for i in -50..50 {
        list.insert(i);
    }
    for i in -5..15 {
        list.insert(i);
    }
    for _ in 0..50 {
        list.insert(2);
    }
    assert_eq!(list.len(), 170);

    let chain = buffers(&list);
    let flat: Vec<i32> = chain.iter().flatten().copied().collect();
    assert_eq!(flat.len(), 170);

    let mut expected: Vec<i32> = (-50..50).chain(-5..15).chain(std::iter::repeat(2).take(50)).collect();
    expected.sort();
    assert_eq!(flat, expected);

    assert_eq!(chain[0][0], -50);
    for pair in chain.windows(2) {
        assert!(pair[0].last().unwrap() <= pair[1].first().unwrap());
    }
    for buffer in &chain {
        assert!(!buffer.is_empty() && buffer.len() <= 15);
    }
    assert_eq!(flat.iter().filter(|&&x| x == 2).count(), 52);
    for i in -50..50 {
        assert!(list.contains(&i));
    }
    assert!(!list.contains(&50));
    assert!(!list.contains(&-51));
}

#[test]
fn splice_in_front_of_a_full_head() {
    let list = filled::<3>(&[5, 6, 7, 1]);
    assert_eq!(buffers(&list), vec![vec![1], vec![5, 6, 7]]);
    assert_eq!(list.len(), 4);
}

#[test]
fn head_with_a_free_slot_takes_an_element_beyond_the_next_buffer() {
    let list = filled::<3>(&[5, 6, 7, 1, 10]);
    assert_eq!(buffers(&list), vec![vec![1, 10], vec![5, 6, 7]]);
    assert_eq!(list.len(), 5);
    assert_eq!(list.find(&6), None);
    assert_eq!(list.find(&10), Some(1));
}

#[test]
fn node_insert_cascades_the_displaced_maximum() {
    let mut node = Node::<i32, 3>::new(10);
    node.insert(20);
    node.insert(30);
    node.insert(15);
    assert_eq!(node.find(&15), Some(1));
    assert_eq!(node.find(&30), Some(0));
    assert!(node.contains(&20));
    assert!(!node.contains(&25));
    let next = node.next().unwrap();
    assert_eq!(next.items().len(), 1);
    assert_eq!(*next.items().min(), 30);
    assert!(next.next().is_none());
}

fn sorted_copy(items: &[i32]) -> Vec<i32> {
    let mut out = items.to_vec();
    out.sort();
    out
}

fn flat<const N: usize>(list: &LinkedLists<i32, N>) -> Vec<i32> {
    buffers(list).into_iter().flatten().collect()
}

#[test]
fn count_is_the_number_of_insertions() {
    let mut list = LinkedLists::<i32, 3>::new();
    let items = [4, 4, 9, -2, 4, 7, 7, 0, 11, 4];
    for (done, &item) in items.iter().enumerate() {
        assert_eq!(list.len(), done);
        list.insert(item);
        assert_eq!(list.len(), done + 1);
        assert_eq!(flat(&list).len(), done + 1);
    }
}

#[test]
fn no_buffer_exceeds_its_capacity() {
    let mut list = LinkedLists::<i32, 4>::new();
    for round in 0..6 {
        for item in [13, 2, 8, 21, 1, 5, 3, 34, 1] {
            list.insert(item * (round + 1));
            for buffer in buffers(&list) {
                assert!(!buffer.is_empty() && buffer.len() <= 4);
                assert_eq!(buffer, sorted_copy(&buffer));
            }
        }
    }
    assert_eq!(list.len(), 54);
}

#[test]
fn node_is_added_when_all_buffers_are_full_and_not_while_the_head_has_room() {
    let mut list = filled::<3>(&[1, 2]);
    assert_eq!(buffers(&list).len(), 1);
    list.insert(3);
    assert_eq!(buffers(&list), vec![vec![1, 2, 3]]);
    list.insert(2);
    assert_eq!(buffers(&list), vec![vec![1, 2, 2], vec![3]]);
    list.insert(0);
    assert_eq!(buffers(&list), vec![vec![0], vec![1, 2, 2], vec![3]]);
    list.insert(0);
    assert_eq!(buffers(&list), vec![vec![0, 0], vec![1, 2, 2], vec![3]]);
    list.insert(1);
    assert_eq!(buffers(&list), vec![vec![0, 0, 1], vec![1, 2, 2], vec![3]]);
    list.insert(9);
    assert_eq!(buffers(&list), vec![vec![0, 0, 1], vec![1, 2, 2], vec![3, 9]]);
    list.insert(1);
    assert_eq!(buffers(&list), vec![vec![0, 0, 1], vec![1, 1, 2], vec![2, 3, 9]]);
    list.insert(1);
    assert_eq!(
        buffers(&list),
        vec![vec![0, 0, 1], vec![1, 1, 1], vec![2, 2, 3], vec![9]]
    );
}

#[test]
fn lookup_finds_what_was_inserted_and_nothing_else() {
    let items = [40, 10, 30, 20, 20, 50, 60, 10, 35];
    let list = filled::<1>(&items);
    assert_eq!(flat(&list), sorted_copy(&items));
    for probe in 0..70 {
        assert_eq!(list.contains(&probe), items.contains(&probe));
        assert_eq!(list.find(&probe).is_some(), items.contains(&probe));
    }
}

#[test]
fn find_gives_the_place_within_the_buffer() {
    let list = filled::<3>(&[10, 20, 30, 40, 50, 60, 70]);
    assert_eq!(
        buffers(&list),
        vec![vec![10, 20, 30], vec![40, 50, 60], vec![70]]
    );
    assert_eq!(list.find(&10), Some(0));
    assert_eq!(list.find(&30), Some(2));
    assert_eq!(list.find(&40), Some(0));
    assert_eq!(list.find(&50), Some(1));
    assert_eq!(list.find(&70), Some(0));
    assert_eq!(list.find(&5), None);
    assert_eq!(list.find(&45), None);
    assert_eq!(list.find(&35), None);
    assert_eq!(list.find(&80), None);
}

#[test]
fn capacity_one_keeps_any_insertion_order_sorted() {
    let orders: [[i32; 6]; 4] = [
        [3, 1, 4, 1, 5, 9],
        [9, 5, 4, 3, 1, 1],
        [1, 1, 3, 4, 5, 9],
        [4, 9, 1, 5, 1, 3],
    ];
    for order in orders {
        let list = filled::<1>(&order);
        assert_eq!(flat(&list), vec![1, 1, 3, 4, 5, 9]);
        assert_eq!(buffers(&list).len(), 6);
    }
}

#[test]
fn same_elements_in_another_order_give_the_same_sequence() {
    let ascending: Vec<i32> = (0..40).collect();
    let evens_then_odds: Vec<i32> = (0..40).step_by(2).chain((1..40).step_by(2)).collect();
    let a = filled::<4>(&ascending);
    let b = filled::<4>(&evens_then_odds);
    assert_eq!(flat(&a), ascending);
    assert_eq!(flat(&b), ascending);
    assert_ne!(buffers(&a).len(), 0);
}

#[test]
fn descending_insertions_splice_a_node_in_front_each_time() {
    let list = filled::<2>(&[9, 8, 7, 6, 5]);
    assert_eq!(
        buffers(&list),
        vec![vec![5], vec![6, 7], vec![8, 9]]
    );
    assert_eq!(list.len(), 5);
    assert_eq!(list.find(&7), Some(1));
}

#[test]
fn stray_element_is_kept_and_counted() {
    let list = filled::<3>(&[5, 6, 7, 1, 10]);
    let mut held = flat(&list);
    held.sort();
    assert_eq!(held, vec![1, 5, 6, 7, 10]);
    assert_eq!(flat(&list), vec![1, 10, 5, 6, 7]);
    assert!(list.contains(&1));
    assert!(list.contains(&10));
    assert!(!list.contains(&5));
}

#[test]
fn duplicates_are_kept() {
    let list = filled::<4>(&[2; 11]);
    assert_eq!(list.len(), 11);
    assert_eq!(flat(&list), vec![2; 11]);
    assert_eq!(
        buffers(&list).iter().map(Vec::len).collect::<Vec<_>>(),
        vec![4, 4, 3]
    );
    assert_eq!(list.find(&2), Some(0));
}

#[test]
fn elements_that_are_not_copy_move_through_the_chain() {
    let mut list = LinkedLists::<String, 2>::new();
    for word in ["kiwi", "fig", "plum", "date", "lime", "pear", "fig"] {
        list.insert(word.to_string());
    }
    assert_eq!(list.len(), 7);
    let mut words = Vec::new();
    let mut at = list.root();
    while let Some(node) = at {
        let items = node.items();
        for i in 0..items.len() {
            words.push(items.get(i).unwrap().clone());
        }
        at = node.next();
    }
    assert_eq!(words, ["date", "fig", "fig", "kiwi", "lime", "pear", "plum"]);
    assert!(list.contains(&"lime".to_string()));
    assert!(!list.contains(&"grape".to_string()));
}

#[test]
fn node_new_is_a_chain_of_one() {
    let node = Node::<i32, 3>::new(4);
    assert_eq!(node.items().len(), 1);
    assert_eq!(node.items().get(0), Some(&4));
    assert!(node.next().is_none());
    assert_eq!(node.find(&4), Some(0));
    assert_eq!(node.find(&3), None);
    assert_eq!(node.find(&5), None);
}

#[test]
fn containers_can_be_shown() {
    let list = filled::<2>(&[3, 1, 2]);
    let shown = format!("{:?}", list);
    assert!(shown.contains('1') && shown.contains('2') && shown.contains('3'));
    let node = Node::<i32, 2>::new(42);
    assert!(format!("{:?}", node).contains("42"));
}

#[test]
fn insertion_at_rank_keeps_equal_elements_adjacent() {
    let list = filled::<3>(&[1, 3, 5, 3, 3, 1, 5, 3]);
    assert_eq!(flat(&list), vec![1, 1, 3, 3, 3, 3, 5, 5]);
    for buffer in buffers(&list) {
        assert!(buffer.len() <= 3);
    }
    assert!(list.contains(&3));
    assert!(!list.contains(&2));
    assert!(!list.contains(&4));
}
