//! A generational arena: a fixed-capacity (grow-only) slot store with O(1)
//! allocate and free. Every handle carries the generation stamp under which
//! its slot was allocated, so a handle left over from an earlier allocation
//! of the same slot is detected and rejected instead of resolving to the
//! new occupant.

use vstd::prelude::*;

verus! {

/// Handle to an entry allocated in an [`Arena`]: the position of the slot in
/// the backing store together with the generation stamp that was current when
/// the slot was allocated. A handle resolves only while both still match.
#[derive(Debug, PartialEq, Eq, Structural, Clone, Copy)]
pub struct Index {
    pub idx: usize,
    pub generation: u64,
}

/// One storage position of an [`Arena`]: either vacant (a member of the free
/// list, holding the position of the next vacant slot) or occupied by a value
/// together with the generation under which the value was allocated.
#[derive(Debug, PartialEq)]
pub enum Entry<T> {
    Free { next_free: Option<usize> },
    Occupied { value: T, generation: u64 },
}

/// Arena out of memory: the free list is empty, so no slot can be allocated
/// until the caller explicitly reserves more capacity.
#[derive(Debug, Clone, Copy, PartialEq, Eq, Structural)]
pub struct ArenaOOM;

/// A generational arena allocating slots out of a vector. A single
/// monotonically increasing generation counter, owned by the arena instance,
/// stamps each allocation, so newer allocations are distinguished from older
/// reclaimed allocations at the same position.
///
/// The `free_slots` field is ghost state: the positions of the vacant slots
/// in the order the free list chains them, head first.
pub struct Arena<T> {
    pub items: Vec<Entry<T>>,
    pub capacity: usize,
    pub generation: u64,
    pub free_list_head: Option<usize>,
    pub free_slots: Ghost<Seq<usize>>,
}

impl<T> Arena<T> {
    /// The slot at position `k` is vacant.
    pub open spec fn slot_free(self, k: int) -> bool {
        self.items@[k] is Free
    }

    /// The slot at position `k` holds a live value.
    pub open spec fn slot_occupied(self, k: int) -> bool {
        self.items@[k] is Occupied
    }

    /// The generation stamp stored in the occupied slot at position `k`.
    pub open spec fn slot_generation(self, k: int) -> u64
        recommends
            self.slot_occupied(k),
    {
        match self.items@[k] {
            Entry::Occupied { generation, .. } => generation,
            Entry::Free { .. } => 0,
        }
    }

    /// The value stored in the occupied slot at position `k`.
    pub open spec fn slot_value(self, k: int) -> T
        recommends
            self.slot_occupied(k),
    {
        match self.items@[k] {
            Entry::Occupied { value, .. } => value,
            Entry::Free { .. } => arbitrary(),
        }
    }

    /// The free-list pointer stored in the vacant slot at position `k`.
    pub open spec fn next_free_of(self, k: int) -> Option<usize>
        recommends
            self.slot_free(k),
    {
        match self.items@[k] {
            Entry::Free { next_free } => next_free,
            Entry::Occupied { .. } => None,
        }
    }

    /// Number of vacant slots.
    pub open spec fn free_count(self) -> nat {
        self.free_slots@.len()
    }

    /// A handle is valid when it addresses a slot inside the store that is
    /// occupied and whose stored generation equals the handle's generation.
    pub open spec fn valid(self, index: Index) -> bool {
        &&& index.idx < self.items@.len()
        &&& self.slot_occupied(index.idx as int)
        &&& self.slot_generation(index.idx as int) == index.generation
    }

    /// The value a valid handle resolves to.
    pub open spec fn value_of(self, index: Index) -> T
        recommends
            self.valid(index),
    {
        self.slot_value(index.idx as int)
    }

    /// The ghost free list is exactly the chain threaded through the vacant
    /// slots: each listed position is a vacant slot in bounds whose stored
    /// pointer names the next listed position (`None` at the end).
    pub open spec fn free_chain_ok(self) -> bool {
        let fs = self.free_slots@;
        &&& (forall|i: int| 0 <= i < fs.len() ==> (#[trigger] fs[i]) < self.items@.len())
        &&& (forall|i: int| 0 <= i < fs.len() ==> self.slot_free((#[trigger] fs[i]) as int))
        &&& (forall|i: int|
            0 <= i < fs.len() ==> self.next_free_of((#[trigger] fs[i]) as int) == (if i + 1
                < fs.len() {
                Some(fs[i + 1])
            } else {
                None::<usize>
            }))
    }

    /// Every vacant slot is on the free list.
    pub open spec fn free_coverage(self) -> bool {
        forall|k: int|
            0 <= k < self.items@.len() && #[trigger] self.slot_free(k) ==> self.free_slots@.contains(
                k as usize,
            )
    }

    /// Every occupied slot was stamped strictly before the current value of
    /// the generation counter.
    pub open spec fn generations_bounded(self) -> bool {
        forall|k: int|
            0 <= k < self.items@.len() && #[trigger] self.slot_occupied(k)
                ==> self.slot_generation(k) < self.generation
    }

    /// Well-formedness: the backing store matches the declared capacity, and
    /// the free list visits every vacant slot exactly once, starting at
    /// `free_list_head`.
    pub open spec fn wf(self) -> bool {
        &&& self.items@.len() == self.capacity as nat
        &&& self.free_list_head == (if self.free_slots@.len() == 0 {
            None::<usize>
        } else {
            Some(self.free_slots@[0])
        })
        &&& self.free_chain_ok()
        &&& self.free_slots@.no_duplicates()
        &&& self.free_coverage()
        &&& self.generations_bounded()
    }

    /// Creates an arena with no slots at all; `reserve` adds storage.
    pub fn new() -> (r: Self)
        ensures
            r.wf(),
            r.capacity == 0,
            r.generation == 0,
            r.free_count() == 0,
            forall|i: Index| !r.valid(i),
    {
        Arena {
            items: Vec::new(),
            capacity: 0,
            generation: 0,
            free_list_head: None,
            free_slots: Ghost(Seq::empty()),
        }
    }

    /// The number of slots the arena owns, vacant or occupied.
    pub fn capacity(&self) -> (r: usize)
        ensures
            r == self.capacity,
    {
        self.capacity
    }

    /// Appends `capacity` vacant slots to the backing store and links them
    /// onto the front of the free list. Growth is append-only: existing
    /// slots, their occupants and every live handle stay untouched.
    pub fn reserve(&mut self, capacity: usize)
        requires
            old(self).wf(),
            old(self).capacity + capacity <= usize::MAX,
        ensures
            final(self).wf(),
            final(self).capacity == old(self).capacity + capacity,
            final(self).generation == old(self).generation,
            final(self).free_count() == old(self).free_count() + capacity,
            final(self).free_slots@ == Seq::new(
                capacity as nat,
                |j: int| (old(self).items@.len() + j) as usize,
            ) + old(self).free_slots@,
            forall|i: Index| final(self).valid(i) <==> old(self).valid(i),
            forall|i: Index|
                old(self).valid(i) ==> final(self).value_of(i) == old(self).value_of(i),
    {
        if capacity == 0 {
            proof {
                assert(Seq::new(0nat, |j: int| (self.items@.len() + j) as usize)
                    + self.free_slots@ =~= self.free_slots@);
            }
            return;
        }
        self.items.reserve(capacity);
        let start = self.items.len();
        let end = start + capacity;
        let old_free = self.free_list_head;
        let mut i: usize = start;
        while i < end
            invariant
                start <= i <= end,
                end == start + capacity,
                capacity > 0,
                end <= usize::MAX,
                start == old(self).items@.len(),
                old_free == old(self).free_list_head,
                self.items@.len() == i as nat,
                forall|k: int| 0 <= k < start ==> self.items@[k] == old(self).items@[k],
                forall|k: int|
                    start <= k < i ==> self.items@[k] == (Entry::<T>::Free {
                        next_free: if k == end - 1 {
                            old_free
                        } else {
                            Some((k + 1) as usize)
                        },
                    }),
                self.capacity == old(self).capacity,
                self.generation == old(self).generation,
                self.free_list_head == old(self).free_list_head,
                self.free_slots@ == old(self).free_slots@,
            decreases end - i,
        {
            if i == end - 1 {
                self.items.push(Entry::Free { next_free: old_free });
            } else {
                self.items.push(Entry::Free { next_free: Some(i + 1) });
            }
            i = i + 1;
        }
        self.free_list_head = Some(start);
        self.free_slots = Ghost(
            Seq::new(capacity as nat, |j: int| (start + j) as usize) + self.free_slots@,
        );
        self.capacity = self.capacity + capacity;
        proof {
            self.lemma_reserve_wf(*old(self), start as int, end as int, old_free);
        }
    }

    /// Establishes the postconditions of `reserve` from the state it builds.
    proof fn lemma_reserve_wf(self, pre: Self, start: int, end: int, old_free: Option<usize>)
        requires
            pre.wf(),
            0 < end - start,
            end <= usize::MAX,
            start == pre.items@.len(),
            old_free == pre.free_list_head,
            self.items@.len() == end,
            forall|k: int| 0 <= k < start ==> self.items@[k] == pre.items@[k],
            forall|k: int|
                start <= k < end ==> self.items@[k] == (Entry::<T>::Free {
                    next_free: if k == end - 1 {
                        old_free
                    } else {
                        Some((k + 1) as usize)
                    },
                }),
            self.capacity == pre.capacity + (end - start),
            self.generation == pre.generation,
            self.free_list_head == Some(start as usize),
            self.free_slots@ == Seq::new((end - start) as nat, |j: int| (start + j) as usize)
                + pre.free_slots@,
        ensures
            self.wf(),
            self.free_count() == pre.free_count() + (end - start),
            forall|i: Index| self.valid(i) <==> pre.valid(i),
            forall|i: Index| pre.valid(i) ==> self.value_of(i) == pre.value_of(i),
    {
        let fs = self.free_slots@;
        let added = end - start;
        assert forall|i: int| 0 <= i < fs.len() implies (#[trigger] fs[i]) < self.items@.len()
            && self.slot_free(fs[i] as int) && self.next_free_of(fs[i] as int) == (if i + 1
            < fs.len() {
            Some(fs[i + 1])
        } else {
            None::<usize>
        }) by {
            if i < added {
                assert(fs[i] == (start + i) as usize);
                if i + 1 < added {
                    assert(fs[i + 1] == (start + i + 1) as usize);
                } else if i + 1 < fs.len() {
                    assert(fs[i + 1] == pre.free_slots@[0]);
                    assert(pre.free_list_head == Some(pre.free_slots@[0]));
                }
            } else {
                let j = i - added;
                assert(fs[i] == pre.free_slots@[j]);
                assert(pre.slot_free(pre.free_slots@[j] as int));
                assert(self.items@[fs[i] as int] == pre.items@[fs[i] as int]);
                if i + 1 < fs.len() {
                    assert(fs[i + 1] == pre.free_slots@[j + 1]);
                }
            }
        }
        assert(fs.no_duplicates()) by {
            assert forall|i: int, j: int|
                0 <= i < fs.len() && 0 <= j < fs.len() && i != j implies fs[i] != fs[j] by {
                if i < added && j >= added {
                    assert(fs[j] == pre.free_slots@[j - added]);
                    assert(pre.free_slots@[j - added] < pre.items@.len());
                } else if j < added && i >= added {
                    assert(fs[i] == pre.free_slots@[i - added]);
                    assert(pre.free_slots@[i - added] < pre.items@.len());
                } else if i >= added && j >= added {
                    assert(fs[i] == pre.free_slots@[i - added]);
                    assert(fs[j] == pre.free_slots@[j - added]);
                }
            }
        }
        assert forall|k: int|
            0 <= k < self.items@.len() && #[trigger] self.slot_free(k) implies fs.contains(
            k as usize,
        ) by {
            if k < start {
                assert(self.items@[k] == pre.items@[k]);
                assert(pre.slot_free(k));
                let i = choose|i: int|
                    0 <= i < pre.free_slots@.len() && pre.free_slots@[i] == k as usize;
                assert(fs[i + added] == k as usize);
            } else {
                assert(fs[k - start] == k as usize);
            }
        }
        assert forall|k: int|
            0 <= k < self.items@.len() && #[trigger] self.slot_occupied(k) implies
            self.slot_generation(k) < self.generation by {
            assert(k < start);
            assert(self.items@[k] == pre.items@[k]);
            assert(pre.slot_occupied(k));
        }
        assert forall|i: Index| self.valid(i) <==> pre.valid(i) by {
            if i.idx < start {
                assert(self.items@[i.idx as int] == pre.items@[i.idx as int]);
            } else if i.idx < end {
                assert(self.slot_free(i.idx as int)) by {
                    assert(self.items@[i.idx as int] == (Entry::<T>::Free {
                        next_free: if i.idx == end - 1 {
                            old_free
                        } else {
                            Some((i.idx + 1) as usize)
                        },
                    }));
                }
            }
        }
        assert forall|i: Index| pre.valid(i) implies self.value_of(i) == pre.value_of(i) by {
            assert(self.items@[i.idx as int] == pre.items@[i.idx as int]);
        }
    }

    /// Creates an arena with exactly `capacity` vacant slots chained into one
    /// free list.
    pub fn with_capacity(capacity: usize) -> (r: Self)
        ensures
            r.wf(),
            r.capacity == capacity,
            r.generation == 0,
            r.free_count() == capacity,
            forall|i: Index| !r.valid(i),
    {
        let mut arena = Self::new();
        arena.reserve(capacity);
        arena
    }

    /// Allocates a slot for `item`: pops the head of the free list, stores
    /// the value stamped with the current generation, bumps the counter, and
    /// returns the handle. Fails with `ArenaOOM` exactly when the free list
    /// is empty; the arena never grows implicitly.
    pub fn insert(&mut self, item: T) -> (r: Result<Index, ArenaOOM>)
        requires
            old(self).wf(),
            old(self).free_count() > 0 ==> old(self).generation < u64::MAX,
        ensures
            final(self).wf(),
            final(self).capacity == old(self).capacity,
            old(self).free_count() == 0 ==> r == Err::<Index, ArenaOOM>(ArenaOOM) && *final(self)
                == *old(self),
            old(self).free_count() > 0 ==> (r matches Ok(ix)
                && ix.idx == old(self).free_slots@[0]
                && ix.generation == old(self).generation
                && !old(self).valid(ix)
                && final(self).valid(ix)
                && final(self).value_of(ix) == item
                && final(self).generation == old(self).generation + 1
                && final(self).free_count() == old(self).free_count() - 1
                && final(self).free_slots@ == old(self).free_slots@.drop_first()
                && (forall|j: Index| old(self).valid(j) ==> j.idx != ix.idx)
                && (forall|j: Index| j != ix ==> (final(self).valid(j) <==> old(self).valid(j)))
                && (forall|j: Index|
                    j != ix && old(self).valid(j)
                        ==> final(self).value_of(j) == old(self).value_of(j))),
    {
        let head_idx = match self.free_list_head {
            Some(h) => h,
            None => {
                return Err(ArenaOOM {});
            },
        };
        proof {
            assert(self.free_slots@[0] == head_idx);
            assert(self.slot_free(head_idx as int));
            assert(head_idx < self.items@.len());
        }
        let next = match &self.items[head_idx] {
            Entry::Free { next_free } => *next_free,
            Entry::Occupied { .. } => {
                proof {
                    assert(false);
                }
                return Err(ArenaOOM {});
            },
        };
        self.free_list_head = next;
        let g = self.generation;
        self.items[head_idx] = Entry::Occupied { value: item, generation: g };
        self.generation = g + 1;
        self.free_slots = Ghost(self.free_slots@.drop_first());
        let ix = Index { idx: head_idx, generation: g };
        proof {
            self.lemma_insert_wf(*old(self), ix, item);
        }
        Ok(ix)
    }

    /// Establishes the postconditions of `insert` from the state it builds.
    proof fn lemma_insert_wf(self, pre: Self, ix: Index, v: T)
        requires
            pre.wf(),
            pre.free_count() > 0,
            ix.idx == pre.free_slots@[0],
            ix.generation == pre.generation,
            pre.generation < u64::MAX,
            self.items@ == pre.items@.update(
                ix.idx as int,
                (Entry::Occupied { value: v, generation: ix.generation }),
            ),
            self.capacity == pre.capacity,
            self.generation == pre.generation + 1,
            self.free_list_head == pre.next_free_of(ix.idx as int),
            self.free_slots@ == pre.free_slots@.drop_first(),
        ensures
            self.wf(),
            !pre.valid(ix),
            self.valid(ix),
            self.value_of(ix) == v,
            forall|j: Index| pre.valid(j) ==> j.idx != ix.idx,
            forall|j: Index| j != ix ==> (self.valid(j) <==> pre.valid(j)),
            forall|j: Index| j != ix && pre.valid(j) ==> self.value_of(j) == pre.value_of(j),
    {
        broadcast use vstd::seq::lemma_seq_update_different_alt, vstd::seq::lemma_seq_update_same_alt;

        let fs = self.free_slots@;
        let pfs = pre.free_slots@;
        assert(pre.slot_free(ix.idx as int));
        assert(self.items@[ix.idx as int] == (Entry::Occupied {
            value: v,
            generation: ix.generation,
        }));
        assert(pre.next_free_of(ix.idx as int) == (if 1 < pfs.len() {
            Some(pfs[1])
        } else {
            None::<usize>
        }));
        assert forall|i: int| 0 <= i < fs.len() implies (#[trigger] fs[i]) < self.items@.len()
            && self.slot_free(fs[i] as int) && self.next_free_of(fs[i] as int) == (if i + 1
            < fs.len() {
            Some(fs[i + 1])
        } else {
            None::<usize>
        }) by {
            assert(fs[i] == pfs[i + 1]);
            assert(pfs[i + 1] != pfs[0]);
            if i + 1 < fs.len() {
                assert(fs[i + 1] == pfs[i + 2]);
            }
        }
        if fs.len() > 0 {
            assert(fs[0] == pfs[1]);
        }
        assert(fs.no_duplicates()) by {
            assert forall|i: int, j: int|
                0 <= i < fs.len() && 0 <= j < fs.len() && i != j implies fs[i] != fs[j] by {
                assert(fs[i] == pfs[i + 1]);
                assert(fs[j] == pfs[j + 1]);
            }
        }
        assert forall|k: int|
            0 <= k < self.items@.len() && #[trigger] self.slot_free(k) implies fs.contains(
            k as usize,
        ) by {
            assert(k != ix.idx);
            assert(pre.slot_free(k));
            let i = choose|i: int| 0 <= i < pfs.len() && pfs[i] == k as usize;
            assert(i != 0);
            assert(fs[i - 1] == k as usize);
        }
        assert forall|k: int|
            0 <= k < self.items@.len() && #[trigger] self.slot_occupied(k) implies
            self.slot_generation(k) < self.generation by {
            if k != ix.idx {
                assert(pre.slot_occupied(k));
            }
        }
        assert(self.items@.len() == pre.items@.len());
        assert forall|j: Index| j != ix implies (self.valid(j) <==> pre.valid(j)) by {
            if j.idx < pre.items@.len() {
                if j.idx != ix.idx {
                    assert(self.items@[j.idx as int] == pre.items@[j.idx as int]);
                } else {
                    assert(!pre.valid(j));
                    if self.valid(j) {
                        assert(j.generation == ix.generation);
                        assert(j == ix);
                    }
                }
            }
        }
        assert forall|j: Index| j != ix && pre.valid(j) implies self.value_of(j) == pre.value_of(
            j,
        ) by {
            assert(j.idx != ix.idx);
            assert(self.items@[j.idx as int] == pre.items@[j.idx as int]);
        }
    }

    /// Frees the slot a valid handle points at and returns its value; the
    /// slot joins the front of the free list and the handle goes stale. A
    /// handle that is out of bounds, names a vacant slot, or carries an
    /// outdated generation is rejected with `None` and nothing changes.
    pub fn remove(&mut self, index: &Index) -> (r: Option<T>)
        requires
            old(self).wf(),
        ensures
            final(self).wf(),
            final(self).capacity == old(self).capacity,
            final(self).generation == old(self).generation,
            !old(self).valid(*index) ==> r is None && *final(self) == *old(self),
            old(self).valid(*index) ==> (r matches Some(v) && v == old(self).value_of(*index)
                && !final(self).valid(*index) && final(self).free_count() == old(self).free_count()
                + 1 && final(self).free_slots@ == seq![index.idx] + old(self).free_slots@ && (
            forall|j: Index|
                j != *index ==> (final(self).valid(j) <==> old(self).valid(j))) && (forall|j: Index|
                j != *index && old(self).valid(j) ==> final(self).value_of(j) == old(self).value_of(
                    j,
                ))),
    {
        if index.idx >= self.items.len() {
            return None;
        }
        let matches_gen: bool = match &self.items[index.idx] {
            Entry::Occupied { generation, .. } => *generation == index.generation,
            Entry::Free { .. } => false,
        };
        if !matches_gen {
            return None;
        }
        let prev_head = self.free_list_head;
        let mut entry: Entry<T> = Entry::Free { next_free: prev_head };
        let slot = &mut self.items[index.idx];
        core::mem::swap(slot, &mut entry);
        self.free_list_head = Some(index.idx);
        self.free_slots = Ghost(seq![index.idx] + self.free_slots@);
        proof {
            self.lemma_remove_wf(*old(self), *index);
        }
        match entry {
            Entry::Occupied { value, .. } => Some(value),
            Entry::Free { .. } => {
                proof {
                    assert(false);
                }
                None
            },
        }
    }

    /// Establishes the postconditions of `remove` from the state it builds.
    proof fn lemma_remove_wf(self, pre: Self, index: Index)
        requires
            pre.wf(),
            pre.valid(index),
            self.items@ == pre.items@.update(
                index.idx as int,
                (Entry::Free { next_free: pre.free_list_head }),
            ),
            self.capacity == pre.capacity,
            self.generation == pre.generation,
            self.free_list_head == Some(index.idx),
            self.free_slots@ == seq![index.idx] + pre.free_slots@,
        ensures
            self.wf(),
            !self.valid(index),
            self.free_count() == pre.free_count() + 1,
            forall|j: Index| j != index ==> (self.valid(j) <==> pre.valid(j)),
            forall|j: Index| j != index && pre.valid(j) ==> self.value_of(j) == pre.value_of(j),
    {
        broadcast use vstd::seq::lemma_seq_update_different_alt, vstd::seq::lemma_seq_update_same_alt;

        let fs = self.free_slots@;
        let pfs = pre.free_slots@;
        assert(pre.slot_occupied(index.idx as int));
        assert forall|i: int| 0 <= i < pfs.len() implies pfs[i] != index.idx by {
            assert(pre.slot_free(pfs[i] as int));
        }
        assert(fs[0] == index.idx);
        assert forall|i: int| 0 <= i < fs.len() implies (#[trigger] fs[i]) < self.items@.len()
            && self.slot_free(fs[i] as int) && self.next_free_of(fs[i] as int) == (if i + 1
            < fs.len() {
            Some(fs[i + 1])
        } else {
            None::<usize>
        }) by {
            if i == 0 {
                assert(self.next_free_of(index.idx as int) == pre.free_list_head);
                if fs.len() > 1 {
                    assert(fs[1] == pfs[0]);
                }
            } else {
                assert(fs[i] == pfs[i - 1]);
                assert(pfs[i - 1] != index.idx);
                assert(self.items@[fs[i] as int] == pre.items@[fs[i] as int]);
                if i + 1 < fs.len() {
                    assert(fs[i + 1] == pfs[i]);
                }
            }
        }
        assert(fs.no_duplicates()) by {
            assert forall|i: int, j: int|
                0 <= i < fs.len() && 0 <= j < fs.len() && i != j implies fs[i] != fs[j] by {
                if i > 0 {
                    assert(fs[i] == pfs[i - 1]);
                }
                if j > 0 {
                    assert(fs[j] == pfs[j - 1]);
                }
            }
        }
        assert forall|k: int|
            0 <= k < self.items@.len() && #[trigger] self.slot_free(k) implies fs.contains(
            k as usize,
        ) by {
            if k == index.idx {
                assert(fs[0] == k as usize);
            } else {
                assert(pre.slot_free(k));
                let i = choose|i: int| 0 <= i < pfs.len() && pfs[i] == k as usize;
                assert(fs[i + 1] == k as usize);
            }
        }
        assert forall|k: int|
            0 <= k < self.items@.len() && #[trigger] self.slot_occupied(k) implies
            self.slot_generation(k) < self.generation by {
            assert(k != index.idx);
            assert(pre.slot_occupied(k));
        }
        assert(self.items@.len() == pre.items@.len());
        assert forall|j: Index| j != index implies (self.valid(j) <==> pre.valid(j)) by {
            if j.idx < pre.items@.len() {
                if j.idx != index.idx {
                    assert(self.items@[j.idx as int] == pre.items@[j.idx as int]);
                } else {
                    assert(!self.valid(j));
                    if pre.valid(j) {
                        assert(j.generation == pre.slot_generation(index.idx as int));
                        assert(j == index);
                    }
                }
            }
        }
        assert forall|j: Index| j != index && pre.valid(j) implies self.value_of(j)
            == pre.value_of(j) by {
            assert(j.idx != index.idx);
            assert(self.items@[j.idx as int] == pre.items@[j.idx as int]);
        }
    }

    /// Resolves a handle to a mutable reference to its value, after the same
    /// generation-match validation as `remove`. Only the slot's value can
    /// change through the reference; occupancy and generation stay as they
    /// are (see [`lemma_value_update`]), so every valid handle survives the
    /// borrow.
    pub fn get_mut(&mut self, index: &Index) -> (r: Option<&mut T>)
        ensures
            !old(self).valid(*index) ==> r is None && *final(self) == *old(self),
            old(self).valid(*index) ==> r.is_some()
                && *r.unwrap() == old(self).value_of(*index)
                && final(self).items@ == old(self).items@.update(
                    index.idx as int,
                    (Entry::Occupied { value: *final(r.unwrap()), generation: index.generation }),
                )
                && final(self).capacity == old(self).capacity
                && final(self).generation == old(self).generation
                && final(self).free_list_head == old(self).free_list_head
                && final(self).free_slots@ == old(self).free_slots@,
    {
        if index.idx >= self.items.len() {
            return None;
        }
        let matches_gen: bool = match &self.items[index.idx] {
            Entry::Occupied { generation, .. } => *generation == index.generation,
            Entry::Free { .. } => false,
        };
        if !matches_gen {
            return None;
        }
        match &mut self.items[index.idx] {
            Entry::Occupied { value, .. } => Some(value),
            Entry::Free { .. } => {
                proof {
                    assert(false);
                }
                None
            },
        }
    }

    /// Resolves a handle to a shared reference to its value, after the same
    /// generation-match validation as `remove`.
    pub fn get(&self, index: &Index) -> (r: Option<&T>)
        ensures
            self.valid(*index) ==> (r matches Some(v) && *v == self.value_of(*index)),
            !self.valid(*index) ==> r is None,
    {
        if index.idx >= self.items.len() {
            return None;
        }
        match &self.items[index.idx] {
            Entry::Occupied { value, generation } => {
                if *generation == index.generation {
                    Some(value)
                } else {
                    None
                }
            },
            Entry::Free { .. } => None,
        }
    }
}

/// Writing through the reference handed out by `get_mut` replaces only the
/// value of the addressed slot: well-formedness, the free list, every valid
/// handle and every other slot's value are untouched.
pub proof fn lemma_value_update<T>(pre: Arena<T>, post: Arena<T>, index: Index, v: T)
    requires
        pre.valid(index),
        post.items@ == pre.items@.update(
            index.idx as int,
            (Entry::Occupied { value: v, generation: index.generation }),
        ),
        post.capacity == pre.capacity,
        post.generation == pre.generation,
        post.free_list_head == pre.free_list_head,
        post.free_slots@ == pre.free_slots@,
    ensures
        pre.wf() ==> post.wf(),
        post.valid(index),
        post.value_of(index) == v,
        post.free_count() == pre.free_count(),
        forall|j: Index| post.valid(j) <==> pre.valid(j),
        forall|j: Index| j != index && pre.valid(j) ==> post.value_of(j) == pre.value_of(j),
{
    broadcast use vstd::seq::lemma_seq_update_different_alt, vstd::seq::lemma_seq_update_same_alt;

    assert(pre.slot_occupied(index.idx as int));
    assert(post.items@[index.idx as int] == (Entry::Occupied {
        value: v,
        generation: index.generation,
    }));
    assert(post.items@.len() == pre.items@.len());
    assert forall|j: Index| post.valid(j) <==> pre.valid(j) by {
        if j.idx < pre.items@.len() && j.idx != index.idx {
            assert(post.items@[j.idx as int] == pre.items@[j.idx as int]);
        }
    }
    assert forall|j: Index| j != index && pre.valid(j) implies post.value_of(j) == pre.value_of(
        j,
    ) by {
        assert(j.idx != index.idx);
        assert(post.items@[j.idx as int] == pre.items@[j.idx as int]);
    }
    if pre.wf() {
        let fs = post.free_slots@;
        assert forall|i: int| 0 <= i < fs.len() implies (#[trigger] fs[i]) < post.items@.len()
            && post.slot_free(fs[i] as int) && post.next_free_of(fs[i] as int) == (if i + 1
            < fs.len() {
            Some(fs[i + 1])
        } else {
            None::<usize>
        }) by {
            assert(pre.slot_free(fs[i] as int));
            assert(fs[i] != index.idx);
            assert(post.items@[fs[i] as int] == pre.items@[fs[i] as int]);
        }
        assert forall|k: int|
            0 <= k < post.items@.len() && #[trigger] post.slot_free(k) implies fs.contains(
            k as usize,
        ) by {
            assert(k != index.idx);
            assert(pre.slot_free(k));
        }
        assert forall|k: int|
            0 <= k < post.items@.len() && #[trigger] post.slot_occupied(k) implies
            post.slot_generation(k) < post.generation by {
            if k != index.idx {
                assert(pre.slot_occupied(k));
            } else {
                assert(pre.slot_generation(k) == index.generation);
            }
        }
    }
}

/// Two valid handles that address the same slot are the same handle: a slot
/// holds one generation stamp at a time, so at most one handle per slot
/// resolves.
pub proof fn lemma_handle_unique<T>(a: &Arena<T>, i: Index, j: Index)
    requires
        a.valid(i),
        a.valid(j),
        i.idx == j.idx,
    ensures
        i == j,
{
}

/// Every valid handle was stamped strictly before the arena's current
/// generation counter, so a handle allocated later (stamped with the current
/// counter) can never collide with a handle that is live now.
pub proof fn lemma_valid_generation_bound<T>(a: &Arena<T>, i: Index)
    requires
        a.wf(),
        a.valid(i),
    ensures
        i.generation < a.generation,
{
}

} // verus!
