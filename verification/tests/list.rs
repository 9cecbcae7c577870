use lrucache::arena::ArenaOOM;
use lrucache::list::{LinkedList, ListError};

#[test]
fn lib_it_works() {
    let result: i32 = 2 + 2;
    assert_eq!(result, 4);
}

#[test]
fn list_new() {
    let mut list = LinkedList::<i32>::new();
    assert!(list.empty());
    assert!(list.full());

    assert_eq!(list.peek_front(), Err(ListError::ListEmpty));
    assert_eq!(list.peek_back(), Err(ListError::ListEmpty));

    assert_eq!(list.push_back(0), Err(ListError::ListOOM(ArenaOOM {})));
}

#[test]
fn list_with_capacity() {
    let capacity: usize = 5;
    let mut list = LinkedList::<i32>::with_capacity(capacity);
    assert!(list.empty());
    for _ in 0..capacity {
        assert!(list.push_back(0).is_ok())
    }
    assert!(list.full());
    assert_eq!(list.push_back(0), Err(ListError::ListOOM(ArenaOOM {})));
}

#[test]
fn list_push_back() {
    let capacity: usize = 10;
    let mut list = LinkedList::<i32>::with_capacity(capacity);
    for ele in 0..capacity {
        assert!(list.push_back(ele as i32).is_ok());
    }

    let mut i: i32 = 0;
    let mut it = list.iter();
    while let Some(ele) = it.next() {
        assert_eq!(ele, &i);
        i += 1;
    }
    assert_eq!(i, capacity as i32);
}

#[test]
fn list_push_front() {
    let capacity: usize = 10;
    let mut list = LinkedList::<i32>::with_capacity(capacity);
    for ele in 0..capacity {
        assert!(list.push_front(ele as i32).is_ok());
    }

    let mut i: i32 = capacity as i32 - 1;
    let mut it = list.iter();
    while let Some(ele) = it.next() {
        assert_eq!(ele, &i);
        i -= 1;
    }
    assert_eq!(i, -1);
}

#[test]
fn list_pop_front() {
    let capacity: usize = 10;
    let mut list = LinkedList::<i32>::with_capacity(capacity);

    assert_eq!(list.pop_front(), Err(ListError::ListEmpty));

    for ele in 0..capacity {
        assert!(list.push_back(ele as i32).is_ok());
    }

    for ele in 0..capacity {
        assert_eq!(list.pop_front().unwrap(), ele as i32);
    }

    assert!(list.empty());
    assert_eq!(list.pop_front(), Err(ListError::ListEmpty));
}

#[test]
fn list_pop_back() {
    let capacity: usize = 10;
    let mut list = LinkedList::<i32>::with_capacity(capacity);

    assert_eq!(list.pop_back(), Err(ListError::ListEmpty));

    for ele in 0..capacity {
        assert!(list.push_front(ele as i32).is_ok());
    }

    for ele in 0..capacity {
        assert_eq!(list.pop_back().unwrap(), ele as i32);
    }

    assert!(list.empty());
    assert_eq!(list.pop_back(), Err(ListError::ListEmpty));
}

#[test]
fn list_remove() {
    let mut list = LinkedList::<i32>::with_capacity(5);
    assert!(list.empty());

    let link_0 = list.push_back(0).unwrap();
    let _link_1 = list.push_back(1).unwrap();
    let link_2 = list.push_back(2).unwrap();
    let _link_3 = list.push_back(3).unwrap();
    let link_4 = list.push_back(4).unwrap();

    assert!(list.full());

    assert_eq!(list.peek_front().unwrap(), &0);
    assert_eq!(list.peek_back().unwrap(), &4);

    assert!(list.remove(&link_0).is_ok());
    assert_eq!(list.len(), 4);

    assert_eq!(list.peek_front().unwrap(), &1);
    assert_eq!(list.peek_back().unwrap(), &4);

    assert!(list.remove(&link_4).is_ok());
    assert_eq!(list.len(), 3);

    assert_eq!(list.peek_front().unwrap(), &1);
    assert_eq!(list.peek_back().unwrap(), &3);

    assert!(list.remove(&link_2).is_ok());
    assert_eq!(list.len(), 2);

    let mut it = list.iter();
    assert_eq!(it.next(), Some(&1));
    assert_eq!(it.next(), Some(&3));
    assert_eq!(it.next(), None);
}

#[test]
fn list_remove_stale_link() {
    let mut list = LinkedList::<i32>::with_capacity(3);
    let _front = list.push_back(0).unwrap();
    let middle = list.push_back(1).unwrap();
    let _back = list.push_back(2).unwrap();

    assert_eq!(list.remove(&middle), Ok(1));
    // The link went stale with the removal: a second use is rejected.
    assert_eq!(list.remove(&middle), Err(ListError::LinkBroken));
    assert_eq!(list.get(&middle).err(), Some(ListError::LinkBroken));
    assert_eq!(list.len(), 2);
}

#[test]
fn list_reposition_to_tail() {
    let mut list = LinkedList::<i32>::with_capacity(3);
    let first = list.push_back(1).unwrap();
    let _second = list.push_back(2).unwrap();
    let _third = list.push_back(3).unwrap();

    assert_eq!(list.reposition_to_tail(&first), Ok(()));

    // The node moved to the tail without losing its link.
    assert_eq!(list.peek_back().unwrap(), &1);
    assert_eq!(list.get(&first).unwrap().value, 1);
    let mut it = list.iter();
    assert_eq!(it.next(), Some(&2));
    assert_eq!(it.next(), Some(&3));
    assert_eq!(it.next(), Some(&1));
    assert_eq!(it.next(), None);

    // Repositioning the tail itself changes nothing.
    assert_eq!(list.reposition_to_tail(&first), Ok(()));
    assert_eq!(list.peek_back().unwrap(), &1);
}

#[test]
fn list_reposition_empty_and_stale() {
    let mut list = LinkedList::<i32>::with_capacity(2);
    let link = list.push_back(5).unwrap();
    assert_eq!(list.pop_back(), Ok(5));
    // Empty list: nothing to reposition.
    assert_eq!(list.reposition_to_tail(&link), Err(ListError::ListEmpty));
    let _other = list.push_back(6).unwrap();
    // Stale link on a non-empty list.
    assert_eq!(list.reposition_to_tail(&link), Err(ListError::LinkBroken));
}

#[test]
fn list_set_value_and_get_mut() {
    let mut list = LinkedList::<i32>::with_capacity(2);
    let a = list.push_back(1).unwrap();
    let b = list.push_back(2).unwrap();

    assert_eq!(list.set_value(&a, 10), Ok(()));
    assert_eq!(list.peek_front().unwrap(), &10);

    let node = list.get_mut(&b).unwrap();
    node.value = 20;
    assert_eq!(list.peek_back().unwrap(), &20);

    assert_eq!(list.pop_front(), Ok(10));
    assert_eq!(list.set_value(&a, 99), Err(ListError::LinkBroken));
}

#[test]
fn list_reserve_grows() {
    let mut list = LinkedList::<i32>::with_capacity(1);
    assert!(list.push_back(1).is_ok());
    assert_eq!(list.push_back(2), Err(ListError::ListOOM(ArenaOOM {})));

    list.reserve(1);
    assert!(list.push_back(2).is_ok());
    assert_eq!(list.len(), 2);
    assert_eq!(list.peek_front().unwrap(), &1);
    assert_eq!(list.peek_back().unwrap(), &2);
}
