use lrucache::arena::{Arena, ArenaOOM, Entry, Index};

#[test]
fn it_works() {
    let result: i32 = 2 + 2;
    assert_eq!(result, 4);
}

#[test]
fn arena_new() {
    Arena::<i32>::new();
}

#[test]
fn arena_with_capacity() {
    let capacity: usize = 100;
    let arena = Arena::<i32>::with_capacity(capacity);
    assert_eq!(arena.capacity(), capacity);

    assert_eq!(arena.free_list_head, Some(0));
    let mut i: usize = 0;
    for entry in &arena.items {
        if i == capacity - 1 {
            assert_eq!(entry, &Entry::Free { next_free: None })
        } else {
            assert_eq!(
                entry,
                &Entry::Free {
                    next_free: Some(i + 1)
                }
            )
        }

        i += 1;
    }
}

#[test]
fn arena_insert() {
    let mut arena = Arena::<i32>::new();
    assert_eq!(arena.insert(0), Err(ArenaOOM {}));

    arena.reserve(1);
    let index_0 = arena.insert(0);
    assert_eq!(
        index_0,
        Ok(Index {
            idx: 0,
            generation: 0
        })
    );

    arena.reserve(1);
    let index_1 = arena.insert(1);
    assert_eq!(
        index_1,
        Ok(Index {
            idx: 1,
            generation: 1
        })
    );

    let index_0_val = index_0.unwrap();
    let item_0 = arena.get(&index_0_val);
    assert_eq!(item_0, Some(&0));

    let index_1_val = index_1.unwrap();
    let item_1 = arena.get(&index_1_val);
    assert_eq!(item_1, Some(&1));

    let item_0 = arena.get_mut(&index_0_val);
    assert_eq!(item_0, Some(&mut 0));
    let item_0 = item_0.unwrap();
    *item_0 = 25;

    let item_0 = arena.get(&index_0_val);
    assert_eq!(item_0, Some(&25));

    let item_1 = arena.get_mut(&index_1_val);
    assert_eq!(item_1, Some(&mut 1));
    let item_1 = item_1.unwrap();
    *item_1 = -78;

    let item_1 = arena.get(&index_1_val);
    assert_eq!(item_1, Some(&-78));

    assert_eq!(arena.capacity(), 2);
    assert_eq!(arena.insert(0), Err(ArenaOOM {}));

    let old_cap: usize = arena.capacity();
    let to_reserve: usize = 100;
    arena.reserve(to_reserve);
    for ele in 0..to_reserve {
        assert_eq!(
            arena.insert(0),
            Ok(Index {
                idx: old_cap + ele,
                generation: (old_cap + ele) as u64
            })
        )
    }
}

#[test]
fn arena_remove() {
    let mut arena = Arena::<i32>::with_capacity(1);

    let index = arena.insert(0).unwrap();
    assert_eq!(arena.get(&index), Some(&0));

    assert_eq!(arena.remove(&index).unwrap(), 0);

    assert_eq!(arena.get(&index), None);

    let index = arena.insert(56).unwrap();
    assert_eq!(
        index,
        Index {
            idx: 0,
            generation: 1
        }
    );

    assert_eq!(arena.remove(&index).unwrap(), 56);
    assert!(arena.remove(&index).is_none());

    let current_gen: usize = 2;

    let to_reserve: usize = 5;
    arena.reserve(to_reserve);
    for ele in 0..to_reserve + 1 {
        // free list head moves forward. list circles back to start
        if ele == to_reserve {
            assert_eq!(
                arena.insert(0),
                Ok(Index {
                    idx: 0,
                    generation: (current_gen + ele) as u64
                })
            )
        } else {
            assert_eq!(
                arena.insert(0),
                Ok(Index {
                    idx: ele + 1,
                    generation: (current_gen + ele) as u64
                })
            )
        }
    }
}

#[test]
fn arena_stale_handle_rejected() {
    let mut arena = Arena::<i32>::with_capacity(1);

    let first = arena.insert(7).unwrap();
    assert_eq!(arena.remove(&first), Some(7));

    // The same physical slot is reused under a strictly greater generation.
    let second = arena.insert(8).unwrap();
    assert_eq!(second.idx, first.idx);
    assert!(second.generation > first.generation);

    // The stale handle no longer resolves; the fresh one does.
    assert_eq!(arena.get(&first), None);
    assert_eq!(arena.get(&second), Some(&8));
    assert_eq!(arena.get_mut(&first), None);
    assert_eq!(arena.remove(&first), None);
    assert_eq!(arena.remove(&second), Some(8));
}

#[test]
fn arena_reserve_keeps_live_entries() {
    let mut arena = Arena::<i32>::with_capacity(2);
    let a = arena.insert(10).unwrap();
    let b = arena.insert(20).unwrap();
    assert_eq!(arena.insert(30), Err(ArenaOOM {}));

    arena.reserve(3);
    assert_eq!(arena.capacity(), 5);
    assert_eq!(arena.get(&a), Some(&10));
    assert_eq!(arena.get(&b), Some(&20));
    assert!(arena.insert(30).is_ok());
}
