use blist::{AbsoluteOrdering, BArrayVec};

fn items<const N: usize>(list: &BArrayVec<i32, N>) -> Vec<i32> {
    (0..list.len()).map(|i| *list.get(i).unwrap()).collect()
}

#[test]
fn test_push() {
    let mut this = BArrayVec::<i32, 5>::new(100);

    for i in 101..105 {
        this._push(i).unwrap();
    }

    assert_eq!(items(&this), vec![100, 101, 102, 103, 104]);

    let old = this;

    assert_eq!(this._push(105), Err(105));
    assert_eq!(this, old);
}

#[test]
fn test_push_front() {
    let mut this = BArrayVec::<i32, 5>::new(100);

    for i in 101..105 {
        this._push_front(i).unwrap();
    }

    assert_eq!(items(&this), vec![104, 103, 102, 101, 100]);

    let old = this;

    assert_eq!(this._push_front(105), Err(105));
    assert_eq!(this, old);
}

#[test]
fn test_insert() {
    let mut this = BArrayVec::<i32, 5>::new(100);

    this.insert(-101).unwrap();
    this.insert(102).unwrap();
    this.insert(-102).unwrap();
    this.insert(103).unwrap();

    assert_eq!(items(&this), vec![-102, -101, 100, 102, 103]);

    assert_eq!(this.insert(101), Ok(Some(103)));

    assert_eq!(items(&this), vec![-102, -101, 100, 101, 102]);

    let old = this;

    assert_eq!(this.insert(-200), Err((-200, AbsoluteOrdering::Less)));
    assert_eq!(this.insert(200), Err((200, AbsoluteOrdering::Greater)));

    assert_eq!(this, old);
}

fn built<const N: usize>(first: i32, rest: &[i32]) -> BArrayVec<i32, N> {
    let mut list = BArrayVec::<i32, N>::new(first);
    for &item in rest {
        list.insert(item).unwrap();
    }
    list
}

#[test]
fn new_holds_one_element() {
    let list = BArrayVec::<i32, 5>::new(100);
    assert_eq!(list.len(), 1);
    assert!(!list.is_full());
    assert_eq!(*list.min(), 100);
    assert_eq!(*list.max(), 100);
    assert_eq!(list.get(0), Some(&100));
    for index in 1..6 {
        assert_eq!(list.get(index), None);
    }
}

#[test]
fn new_leaves_the_other_slots_vacant() {
    let mut list = BArrayVec::<i32, 4>::new(7);
    assert_eq!(list, BArrayVec::<i32, 4>::new(7));
    assert_ne!(list, BArrayVec::<i32, 4>::new(8));
    list._push(9).unwrap();
    assert_eq!(items(&list), vec![7, 9]);
    assert_ne!(list, BArrayVec::<i32, 4>::new(7));
}

#[test]
fn capacity_one_is_full_from_the_start() {
    let mut list = BArrayVec::<i32, 1>::new(5);
    assert!(list.is_full());
    assert_eq!(list.insert(3), Err((3, AbsoluteOrdering::Less)));
    assert_eq!(list.insert(7), Err((7, AbsoluteOrdering::Greater)));
    assert_eq!(list.insert(5), Ok(Some(5)));
    assert_eq!(items(&list), vec![5]);
    assert_eq!(list._push(6), Err(6));
    assert_eq!(list._push_front(4), Err(4));
}

#[test]
fn capacity_255_fills_to_the_last_slot() {
    let mut list = BArrayVec::<i32, 255>::new(0);
    for item in 1..255 {
        assert!(!list.is_full());
        assert_eq!(list.insert(item), Ok(None));
    }
    assert!(list.is_full());
    assert_eq!(list.len(), 255);
    assert_eq!(*list.min(), 0);
    assert_eq!(*list.max(), 254);
    assert_eq!(list.insert(100), Ok(Some(254)));
    assert_eq!(list.len(), 255);
    assert_eq!(*list.max(), 253);
    assert_eq!(list.find(&100), Ok(Some(100)));
    assert_eq!(list.get(101), Some(&100));
    assert_eq!(list.get(102), Some(&101));
    assert_eq!(list.insert(300), Err((300, AbsoluteOrdering::Greater)));
    assert_eq!(list.insert(-1), Err((-1, AbsoluteOrdering::Less)));
}

#[test]
fn free_slot_takes_the_item_at_its_rank() {
    let mut list = built::<6>(20, &[10, 30]);
    assert_eq!(items(&list), vec![10, 20, 30]);
    assert_eq!(list.insert(20), Ok(None));
    assert_eq!(items(&list), vec![10, 20, 20, 30]);
    assert_eq!(list.insert(40), Ok(None));
    assert_eq!(list.insert(5), Ok(None));
    assert_eq!(items(&list), vec![5, 10, 20, 20, 30, 40]);
    assert!(list.is_full());
}

#[test]
fn full_list_displaces_its_maximum() {
    let mut list = built::<3>(1, &[2, 3]);
    assert_eq!(list.insert(3), Ok(Some(3)));
    assert_eq!(items(&list), vec![1, 2, 3]);
    assert_eq!(list.insert(1), Ok(Some(3)));
    assert_eq!(items(&list), vec![1, 1, 2]);
    assert_eq!(list.insert(2), Ok(Some(2)));
    assert_eq!(items(&list), vec![1, 1, 2]);
    assert_eq!(list.insert(1), Ok(Some(2)));
    assert_eq!(items(&list), vec![1, 1, 1]);
}

#[test]
fn find_gives_the_first_place_or_the_side() {
    let list = built::<8>(2, &[1, 2, 3, 2, 5]);
    assert_eq!(items(&list), vec![1, 2, 2, 2, 3, 5]);
    assert_eq!(list.find(&1), Ok(Some(0)));
    assert_eq!(list.find(&2), Ok(Some(1)));
    assert_eq!(list.find(&3), Ok(Some(4)));
    assert_eq!(list.find(&5), Ok(Some(5)));
    assert_eq!(list.find(&4), Ok(None));
    assert_eq!(list.find(&0), Err(AbsoluteOrdering::Less));
    assert_eq!(list.find(&6), Err(AbsoluteOrdering::Greater));
}

#[test]
fn contains_follows_find() {
    let list = built::<4>(10, &[30, 20]);
    assert_eq!(list.contains(&10), Ok(true));
    assert_eq!(list.contains(&20), Ok(true));
    assert_eq!(list.contains(&30), Ok(true));
    assert_eq!(list.contains(&15), Ok(false));
    assert_eq!(list.contains(&9), Err(AbsoluteOrdering::Less));
    assert_eq!(list.contains(&31), Err(AbsoluteOrdering::Greater));
}

#[test]
fn insertion_order_does_not_show_in_a_buffer() {
    let a = built::<5>(3, &[1, 4, 1, 5]);
    let b = built::<5>(5, &[4, 3, 1, 1]);
    let c = built::<5>(1, &[1, 3, 4, 5]);
    assert_eq!(a, b);
    assert_eq!(b, c);
    assert_eq!(items(&a), vec![1, 1, 3, 4, 5]);
}

#[test]
fn clone_holds_the_same_elements() {
    let mut list = BArrayVec::<String, 4>::new("pear".to_string());
    list.insert("apple".to_string()).unwrap();
    list.insert("quince".to_string()).unwrap();
    let copy = list.clone();
    assert_eq!(copy, list);
    assert_eq!(copy.len(), 3);
    assert_eq!(copy.get(0).map(String::as_str), Some("apple"));
    assert_eq!(copy.get(1).map(String::as_str), Some("pear"));
    assert_eq!(copy.get(2).map(String::as_str), Some("quince"));
    list.insert("fig".to_string()).unwrap();
    assert_eq!(copy.len(), 3);
    assert_ne!(copy, list);
}

#[test]
fn rejected_item_comes_back_unchanged() {
    let mut list = BArrayVec::<String, 2>::new("m".to_string());
    list.insert("n".to_string()).unwrap();
    assert_eq!(
        list.insert("a".to_string()),
        Err(("a".to_string(), AbsoluteOrdering::Less))
    );
    assert_eq!(
        list.insert("z".to_string()),
        Err(("z".to_string(), AbsoluteOrdering::Greater))
    );
    assert_eq!(list.insert("m".to_string()), Ok(Some("n".to_string())));
    assert_eq!(list.get(0).map(String::as_str), Some("m"));
    assert_eq!(list.get(1).map(String::as_str), Some("m"));
}

#[test]
fn absent_list_takes_no_more_room_than_a_list() {
    type L = BArrayVec<i32, 5>;
    assert_eq!(std::mem::size_of::<L>(), std::mem::size_of::<Option<L>>());
}

#[test]
fn sides_can_be_copied_compared_and_shown() {
    let side = AbsoluteOrdering::Less;
    let copy = side;
    assert_eq!(side, copy);
    assert_ne!(side, AbsoluteOrdering::Greater);
    assert_eq!(format!("{:?}", AbsoluteOrdering::Greater), "Greater");
}
