//! A doubly linked deque whose nodes live inside a generational arena. Node
//! identity is an arena handle (a [`Link`]), which gives O(1) push and pop at
//! both ends, O(1) interior removal given a link, and O(1) relocation of an
//! existing node to the tail without reallocating it — the relocated node
//! keeps its link, so handles held by outside structures stay valid.

use vstd::prelude::*;

use crate::arena::{Arena, ArenaOOM, Entry, Index};

verus! {

/// Analogous to a pointer to a node of the list: a copyable handle naming a
/// node in the list's arena. Ownership of the node stays with the arena.
#[derive(Debug, Clone, Copy, PartialEq, Eq, Structural)]
pub struct Link {
    pub index: Index,
}

/// A node of the list; `Option<Link>` stands in for pointers to the
/// neighbouring nodes.
pub struct Node<T> {
    pub value: T,
    pub next: Option<Link>,
    pub prev: Option<Link>,
}

/// The list's failures: a handle that does not resolve (stale or foreign), an
/// exhausted arena (wrapping the arena's error), and an operation that needs
/// at least one element.
#[derive(Debug, Clone, Copy, PartialEq, Eq, Structural)]
pub enum ListError {
    LinkBroken,
    ListOOM(ArenaOOM),
    ListEmpty,
}

/// A doubly linked list backed by a generational arena.
///
/// The `order` field is ghost state: the arena handles of the nodes in list
/// order, head first. The view of the list is the sequence of node values in
/// that order.
pub struct LinkedList<T> {
    pub arena: Arena<Node<T>>,
    pub head: Option<Link>,
    pub tail: Option<Link>,
    pub len: usize,
    pub order: Ghost<Seq<Index>>,
}

impl<T> LinkedList<T> {
    /// Number of nodes in the list.
    pub open spec fn spec_len(self) -> nat {
        self.order@.len()
    }

    /// The node stored at list position `i` (0 is the head).
    pub open spec fn node_at(self, i: int) -> Node<T> {
        self.arena.value_of(self.order@[i])
    }

    /// The link that identifies the node at list position `i`.
    pub open spec fn link_at(self, i: int) -> Link {
        Link { index: self.order@[i] }
    }

    /// The link resolves to a node of this list.
    pub open spec fn contains_link(self, link: Link) -> bool {
        self.order@.contains(link.index)
    }

    /// The list position of the node a contained link resolves to.
    pub open spec fn pos_of(self, link: Link) -> int {
        self.order@.index_of(link.index)
    }

    /// Number of slots of the backing arena.
    pub open spec fn spec_capacity(self) -> nat {
        self.arena.capacity as nat
    }

    /// The list is full when every arena slot holds a node.
    pub open spec fn spec_full(self) -> bool {
        self.spec_len() == self.spec_capacity()
    }

    /// Well-formedness: the ghost order lists the handles of the nodes, each
    /// valid and addressing its own slot; `head`, `tail` and the nodes'
    /// `next`/`prev` pointers trace that order both ways; and every live
    /// arena slot belongs to the list.
    pub open spec fn wf(self) -> bool {
        let ord = self.order@;
        &&& self.arena.wf()
        &&& self.len as nat == ord.len()
        &&& ord.len() + self.arena.free_count() == self.arena.items@.len()
        &&& (forall|i: int| 0 <= i < ord.len() ==> self.arena.valid(#[trigger] ord[i]))
        &&& (forall|i: int, j: int|
            0 <= i < j < ord.len() ==> (#[trigger] ord[i]).idx != (#[trigger] ord[j]).idx)
        &&& self.head == (if ord.len() == 0 {
            None::<Link>
        } else {
            Some(Link { index: ord[0] })
        })
        &&& self.tail == (if ord.len() == 0 {
            None::<Link>
        } else {
            Some(Link { index: ord[ord.len() - 1] })
        })
        &&& (forall|i: int|
            0 <= i < ord.len() ==> (#[trigger] self.node_at(i)).next == (if i + 1 < ord.len() {
                Some(Link { index: ord[i + 1] })
            } else {
                None::<Link>
            }))
        &&& (forall|i: int|
            0 <= i < ord.len() ==> (#[trigger] self.node_at(i)).prev == (if 0 < i {
                Some(Link { index: ord[i - 1] })
            } else {
                None::<Link>
            }))
        &&& (forall|j: Index| #[trigger] self.arena.valid(j) ==> ord.contains(j))
    }

    /// A link resolves in the arena exactly when it belongs to the list, and
    /// then its position is the unique one holding it.
    pub proof fn lemma_link_valid(self, link: Link)
        requires
            self.wf(),
        ensures
            self.arena.valid(link.index) <==> self.contains_link(link),
            self.contains_link(link) ==> {
                let i = self.pos_of(link);
                &&& 0 <= i < self.spec_len()
                &&& self.order@[i] == link.index
                &&& (forall|p: int|
                    0 <= p < self.spec_len() && self.order@[p] == link.index ==> p == i)
                &&& self.node_at(i) == self.arena.value_of(link.index)
            },
    {
        let ord = self.order@;
        if self.contains_link(link) {
            let w = choose|w: int| 0 <= w < ord.len() && ord[w] == link.index;
            assert(self.arena.valid(ord[w]));
            let i = self.pos_of(link);
            assert(0 <= i < ord.len() && ord[i] == link.index);
            assert forall|p: int| 0 <= p < ord.len() && ord[p] == link.index implies p == i by {
                if p < i {
                    assert(ord[p].idx != ord[i].idx);
                } else if i < p {
                    assert(ord[i].idx != ord[p].idx);
                }
            }
        }
    }

    /// Creates a list with no storage at all; every push fails until
    /// `reserve` adds slots.
    pub fn new() -> (r: Self)
        ensures
            r.wf(),
            r@ == Seq::<T>::empty(),
            r.spec_capacity() == 0,
            r.arena.generation == 0,
    {
        let l = LinkedList {
            arena: Arena::new(),
            head: None,
            tail: None,
            len: 0,
            order: Ghost(Seq::empty()),
        };
        proof {
            assert(l@ =~= Seq::<T>::empty());
        }
        l
    }

    /// Creates a list whose arena preallocates exactly `capacity` slots.
    pub fn with_capacity(capacity: usize) -> (r: Self)
        ensures
            r.wf(),
            r@ == Seq::<T>::empty(),
            r.spec_capacity() == capacity,
            r.arena.generation == 0,
    {
        let l = LinkedList {
            arena: Arena::with_capacity(capacity),
            head: None,
            tail: None,
            len: 0,
            order: Ghost(Seq::empty()),
        };
        proof {
            assert(l@ =~= Seq::<T>::empty());
        }
        l
    }

    /// Number of elements currently in the list.
    pub fn len(&self) -> (r: usize)
        requires
            self.wf(),
        ensures
            r == self.spec_len(),
    {
        self.len
    }

    /// The list holds no element.
    pub fn empty(&self) -> (r: bool)
        requires
            self.wf(),
        ensures
            r == (self.spec_len() == 0),
    {
        self.head.is_none()
    }

    /// Every arena slot holds a node, so the next push would fail.
    pub fn full(&self) -> (r: bool)
        requires
            self.wf(),
        ensures
            r == self.spec_full(),
    {
        self.len == self.arena.capacity()
    }

    /// Adds `capacity` slots to the backing arena. Existing nodes and links
    /// stay untouched.
    pub fn reserve(&mut self, capacity: usize)
        requires
            old(self).wf(),
            old(self).arena.capacity + capacity <= usize::MAX,
        ensures
            final(self).wf(),
            final(self)@ == old(self)@,
            final(self).spec_capacity() == old(self).spec_capacity() + capacity,
            final(self).order@ == old(self).order@,
            final(self).head == old(self).head,
            final(self).tail == old(self).tail,
            final(self).arena.generation == old(self).arena.generation,
    {
        self.arena.reserve(capacity);
        proof {
            assert forall|i: int| 0 <= i < self.order@.len() implies #[trigger] self.node_at(i)
                == old(self).node_at(i) by {
                assert(old(self).arena.valid(self.order@[i]));
            }
            assert(self@ =~= old(self)@);
        }
    }

    /// The link of the head (least recently pushed-back) node.
    pub fn head(&self) -> (r: Option<Link>)
        ensures
            r == self.head,
    {
        self.head
    }

    /// The link of the tail (most recently pushed-back) node.
    pub fn tail(&self) -> (r: Option<Link>)
        ensures
            r == self.tail,
    {
        self.tail
    }

    /// Resolves a link to a shared reference to its node.
    pub fn get(&self, link: &Link) -> (r: Result<&Node<T>, ListError>)
        requires
            self.wf(),
        ensures
            self.contains_link(*link) ==> (r matches Ok(n) && *n == self.node_at(
                self.pos_of(*link),
            )),
            !self.contains_link(*link) ==> r == Err::<&Node<T>, ListError>(ListError::LinkBroken),
    {
        proof {
            self.lemma_link_valid(*link);
        }
        match self.arena.get(&link.index) {
            Some(n) => Ok(n),
            None => Err(ListError::LinkBroken),
        }
    }

    /// Resolves a link to a mutable reference to its node. The caller may
    /// rewrite the node's fields through the reference; only a write that
    /// changes `next` or `prev` gives up well-formedness, which is why the
    /// mutating list operations go through their own verified paths.
    pub fn get_mut(&mut self, link: &Link) -> (r: Result<&mut Node<T>, ListError>)
        requires
            old(self).wf(),
        ensures
            !old(self).contains_link(*link) ==> r == Err::<&mut Node<T>, ListError>(
                ListError::LinkBroken,
            ) && *final(self) == *old(self),
            old(self).contains_link(*link) ==> r is Ok
                && *r->Ok_0 == old(self).node_at(old(self).pos_of(*link))
                && final(self).arena.items@ == old(self).arena.items@.update(
                    link.index.idx as int,
                    (Entry::Occupied { value: *final(r->Ok_0), generation: link.index.generation }),
                )
                && final(self).arena.capacity == old(self).arena.capacity
                && final(self).arena.generation == old(self).arena.generation
                && final(self).arena.free_list_head == old(self).arena.free_list_head
                && final(self).arena.free_slots@ == old(self).arena.free_slots@
                && final(self).head == old(self).head
                && final(self).tail == old(self).tail
                && final(self).len == old(self).len
                && final(self).order@ == old(self).order@,
    {
        proof {
            self.lemma_link_valid(*link);
        }
        match self.arena.get_mut(&link.index) {
            Some(n) => Ok(n),
            None => Err(ListError::LinkBroken),
        }
    }

    /// Replaces the value stored in the node a link resolves to, leaving the
    /// node in place: its link and its position in the order are unchanged.
    pub fn set_value(&mut self, link: &Link, value: T) -> (r: Result<(), ListError>)
        requires
            old(self).wf(),
        ensures
            final(self).wf(),
            final(self).spec_capacity() == old(self).spec_capacity(),
            final(self).arena.generation == old(self).arena.generation,
            !old(self).contains_link(*link) ==> r == Err::<(), ListError>(ListError::LinkBroken)
                && *final(self) == *old(self),
            old(self).contains_link(*link) ==> r == Ok::<(), ListError>(()) && {
                let i = old(self).pos_of(*link);
                &&& final(self)@ == old(self)@.update(i, value)
                &&& final(self).order@ == old(self).order@
                &&& final(self).head == old(self).head
                &&& final(self).tail == old(self).tail
            },
    {
        proof {
            self.lemma_link_valid(*link);
        }
        let ghost pre = self.arena;
        match self.arena.get_mut(&link.index) {
            Some(n) => {
                n.value = value;
                proof {
                    let i = old(self).pos_of(*link);
                    let ord = self.order@;
                    let v = Node {
                        value,
                        next: pre.value_of(link.index).next,
                        prev: pre.value_of(link.index).prev,
                    };
                    crate::arena::lemma_value_update(pre, self.arena, link.index, v);
                    assert(ord[i] == link.index);
                    assert forall|k: int| 0 <= k < ord.len() implies #[trigger] self.node_at(k)
                        == (if k == i {
                        v
                    } else {
                        old(self).node_at(k)
                    }) by {
                        assert(old(self).arena.valid(ord[k]));
                        if k != i {
                            if k < i {
                                assert(ord[k].idx != ord[i].idx);
                            } else {
                                assert(ord[i].idx != ord[k].idx);
                            }
                            assert(ord[k] != link.index);
                        }
                    }
                    assert(self@ =~= old(self)@.update(i, value));
                }
                Ok(())
            },
            None => Err(ListError::LinkBroken),
        }
    }

    /// A reference to the value of the head node.
    pub fn peek_front(&self) -> (r: Result<&T, ListError>)
        requires
            self.wf(),
        ensures
            self.spec_len() == 0 ==> r == Err::<&T, ListError>(ListError::ListEmpty),
            self.spec_len() > 0 ==> (r matches Ok(v) && *v == self@[0]),
    {
        let head_link = match self.head {
            Some(l) => l,
            None => {
                return Err(ListError::ListEmpty);
            },
        };
        proof {
            assert(self.order@[0] == head_link.index);
            assert(self.order@.contains(head_link.index));
            self.lemma_link_valid(head_link);
        }
        match self.get(&head_link) {
            Ok(n) => Ok(&n.value),
            Err(e) => {
                proof {
                    assert(false);
                }
                Err(e)
            },
        }
    }

    /// A reference to the value of the tail node.
    pub fn peek_back(&self) -> (r: Result<&T, ListError>)
        requires
            self.wf(),
        ensures
            self.spec_len() == 0 ==> r == Err::<&T, ListError>(ListError::ListEmpty),
            self.spec_len() > 0 ==> (r matches Ok(v) && *v == self@[self.spec_len() - 1]),
    {
        let tail_link = match self.tail {
            Some(l) => l,
            None => {
                return Err(ListError::ListEmpty);
            },
        };
        proof {
            assert(self.order@[self.order@.len() - 1] == tail_link.index);
            assert(self.order@.contains(tail_link.index));
            self.lemma_link_valid(tail_link);
        }
        match self.get(&tail_link) {
            Ok(n) => Ok(&n.value),
            Err(e) => {
                proof {
                    assert(false);
                }
                Err(e)
            },
        }
    }

    /// Appends a value at the tail: allocates a node in the arena, splices it
    /// after the current tail, and returns its link. Fails with `ListOOM`
    /// exactly when the list is full; the arena never grows implicitly.
    pub fn push_back(&mut self, value: T) -> (r: Result<Link, ListError>)
        requires
            old(self).wf(),
            !old(self).spec_full() ==> old(self).arena.generation < u64::MAX,
        ensures
            final(self).wf(),
            final(self).spec_capacity() == old(self).spec_capacity(),
            old(self).spec_full() ==> r == Err::<Link, ListError>(ListError::ListOOM(ArenaOOM))
                && *final(self) == *old(self),
            !old(self).spec_full() ==> (r matches Ok(link)
                && final(self)@ == old(self)@.push(value)
                && final(self).order@ == old(self).order@.push(link.index)
                && link == final(self).link_at(old(self).spec_len() as int)
                && !old(self).contains_link(link)
                && final(self).tail == Some(link)
                && final(self).arena.generation == old(self).arena.generation + 1),
    {
        let node = Node { value, next: None, prev: self.tail };
        let index = match self.arena.insert(node) {
            Ok(ix) => ix,
            Err(e) => {
                return Err(ListError::ListOOM(e));
            },
        };
        let link = Link { index };
        let ghost a1 = self.arena;
        proof {
            assert(old(self).spec_len() < old(self).spec_capacity());
        }
        match self.tail {
            Some(tail_link) => {
                proof {
                    assert(old(self).order@[old(self).spec_len() - 1] == tail_link.index);
                    assert(old(self).arena.valid(tail_link.index));
                    assert(tail_link.index.idx != index.idx);
                    assert(self.arena.valid(tail_link.index));
                }
                self.set_next(tail_link, Some(link));
            },
            None => {
                self.head = Some(link);
            },
        }
        self.tail = Some(link);
        self.len = self.len + 1;
        self.order = Ghost(self.order@.push(index));
        proof {
            let ord0 = old(self).order@;
            let ord1 = self.order@;
            let n0 = ord0.len() as int;
            assert(ord1 == ord0.push(index));
            assert forall|i: int| 0 <= i < ord1.len() implies self.arena.valid(
                #[trigger] ord1[i],
            ) by {
                if i < n0 {
                    assert(ord1[i] == ord0[i]);
                    assert(old(self).arena.valid(ord0[i]));
                } else {
                    assert(ord1[i] == index);
                }
            }
            assert forall|i: int, j: int| 0 <= i < j < ord1.len() implies (#[trigger] ord1[i]).idx
                != (#[trigger] ord1[j]).idx by {
                if j < n0 {
                    assert(ord1[i] == ord0[i] && ord1[j] == ord0[j]);
                } else {
                    assert(ord1[i] == ord0[i] && ord1[j] == index);
                    assert(old(self).arena.valid(ord0[i]));
                }
            }
            assert forall|i: int| 0 <= i < ord1.len() implies (#[trigger] self.node_at(i)).next
                == (if i + 1 < ord1.len() {
                Some(Link { index: ord1[i + 1] })
            } else {
                None::<Link>
            }) && self.node_at(i).prev == (if 0 < i {
                Some(Link { index: ord1[i - 1] })
            } else {
                None::<Link>
            }) && self.node_at(i).value == (if i < n0 {
                old(self)@[i]
            } else {
                value
            }) by {
                if i < n0 {
                    assert(ord1[i] == ord0[i]);
                    assert(old(self).arena.valid(ord0[i]));
                    assert(old(self).node_at(i).next == (if i + 1 < n0 {
                        Some(Link { index: ord0[i + 1] })
                    } else {
                        None::<Link>
                    }));
                    assert(old(self).node_at(i).prev == (if 0 < i {
                        Some(Link { index: ord0[i - 1] })
                    } else {
                        None::<Link>
                    }));
                    assert(a1.value_of(ord0[i]) == old(self).node_at(i));
                    if i < n0 - 1 {
                        assert(ord0[i].idx != ord0[n0 - 1].idx);
                        assert(self.arena.value_of(ord1[i]) == a1.value_of(ord0[i]));
                    }
                } else {
                    assert(ord1[i] == index);
                    if n0 > 0 {
                        assert(index.idx != ord0[n0 - 1].idx);
                    }
                }
            }
            assert forall|j: Index| #[trigger] self.arena.valid(j) implies ord1.contains(j) by {
                if j != index {
                    assert(old(self).arena.valid(j));
                    assert(ord0.contains(j));
                    let p = choose|p: int| 0 <= p < ord0.len() && ord0[p] == j;
                    assert(ord1[p] == j);
                } else {
                    assert(ord1[n0] == j);
                }
            }
            assert(!old(self).contains_link(link)) by {
                if old(self).contains_link(link) {
                    let p = choose|p: int| 0 <= p < ord0.len() && ord0[p] == index;
                    assert(old(self).arena.valid(ord0[p]));
                }
            }
            assert(final(self)@ =~= old(self)@.push(value)) by {
                assert forall|i: int| 0 <= i < ord1.len() implies self@[i] == old(self)@.push(
                    value,
                )[i] by {
                    assert(self@[i] == self.node_at(i).value);
                }
            }
        }
        Ok(link)
    }

    /// Prepends a value at the head: allocates a node in the arena, splices
    /// it before the current head, and returns its link. Fails with `ListOOM`
    /// exactly when the list is full.
    pub fn push_front(&mut self, value: T) -> (r: Result<Link, ListError>)
        requires
            old(self).wf(),
            !old(self).spec_full() ==> old(self).arena.generation < u64::MAX,
        ensures
            final(self).wf(),
            final(self).spec_capacity() == old(self).spec_capacity(),
            old(self).spec_full() ==> r == Err::<Link, ListError>(ListError::ListOOM(ArenaOOM))
                && *final(self) == *old(self),
            !old(self).spec_full() ==> (r matches Ok(link)
                && final(self)@ == seq![value] + old(self)@
                && final(self).order@ == seq![link.index] + old(self).order@
                && link == final(self).link_at(0)
                && !old(self).contains_link(link)
                && final(self).head == Some(link)
                && final(self).arena.generation == old(self).arena.generation + 1),
    {
        let node = Node { value, next: self.head, prev: None };
        let index = match self.arena.insert(node) {
            Ok(ix) => ix,
            Err(e) => {
                return Err(ListError::ListOOM(e));
            },
        };
        let link = Link { index };
        let ghost a1 = self.arena;
        proof {
            assert(old(self).spec_len() < old(self).spec_capacity());
        }
        match self.head {
            Some(head_link) => {
                proof {
                    assert(old(self).order@[0] == head_link.index);
                    assert(old(self).arena.valid(head_link.index));
                    assert(head_link.index.idx != index.idx);
                    assert(self.arena.valid(head_link.index));
                }
                self.set_prev(head_link, Some(link));
            },
            None => {
                self.tail = Some(link);
            },
        }
        self.head = Some(link);
        self.len = self.len + 1;
        self.order = Ghost(seq![index] + self.order@);
        proof {
            let ord0 = old(self).order@;
            let ord1 = self.order@;
            let n0 = ord0.len() as int;
            assert(ord1 == seq![index] + ord0);
            assert(ord1.len() == n0 + 1);
            assert(ord1[0] == index);
            assert forall|i: int| 1 <= i < ord1.len() implies ord1[i] == ord0[i - 1] by {}
            assert forall|i: int| 0 <= i < ord1.len() implies self.arena.valid(
                #[trigger] ord1[i],
            ) by {
                if i >= 1 {
                    assert(ord1[i] == ord0[i - 1]);
                    assert(old(self).arena.valid(ord0[i - 1]));
                } else {
                    assert(ord1[i] == index);
                }
            }
            assert forall|i: int, j: int| 0 <= i < j < ord1.len() implies (#[trigger] ord1[i]).idx
                != (#[trigger] ord1[j]).idx by {
                if i >= 1 {
                    assert(ord1[i] == ord0[i - 1] && ord1[j] == ord0[j - 1]);
                } else {
                    assert(ord1[i] == index && ord1[j] == ord0[j - 1]);
                    assert(old(self).arena.valid(ord0[j - 1]));
                }
            }
            assert forall|i: int| 0 <= i < ord1.len() implies (#[trigger] self.node_at(i)).next
                == (if i + 1 < ord1.len() {
                Some(Link { index: ord1[i + 1] })
            } else {
                None::<Link>
            }) && self.node_at(i).prev == (if 0 < i {
                Some(Link { index: ord1[i - 1] })
            } else {
                None::<Link>
            }) && self.node_at(i).value == (if i >= 1 {
                old(self)@[i - 1]
            } else {
                value
            }) by {
                if i >= 1 {
                    assert(ord1[i] == ord0[i - 1]);
                    assert(old(self).arena.valid(ord0[i - 1]));
                    assert(old(self).node_at(i - 1).next == (if i < n0 {
                        Some(Link { index: ord0[i] })
                    } else {
                        None::<Link>
                    }));
                    assert(old(self).node_at(i - 1).prev == (if 1 < i {
                        Some(Link { index: ord0[i - 2] })
                    } else {
                        None::<Link>
                    }));
                    assert(a1.value_of(ord0[i - 1]) == old(self).node_at(i - 1));
                    if i > 1 {
                        assert(ord0[i - 1].idx != ord0[0].idx);
                        assert(self.arena.value_of(ord1[i]) == a1.value_of(ord0[i - 1]));
                    }
                } else {
                    assert(ord1[i] == index);
                    if n0 > 0 {
                        assert(index.idx != ord0[0].idx);
                    }
                }
            }
            assert forall|j: Index| #[trigger] self.arena.valid(j) implies ord1.contains(j) by {
                if j != index {
                    assert(old(self).arena.valid(j));
                    assert(ord0.contains(j));
                    let p = choose|p: int| 0 <= p < ord0.len() && ord0[p] == j;
                    assert(ord1[p + 1] == j);
                } else {
                    assert(ord1[0] == j);
                }
            }
            assert(!old(self).contains_link(link)) by {
                if old(self).contains_link(link) {
                    let p = choose|p: int| 0 <= p < ord0.len() && ord0[p] == index;
                    assert(old(self).arena.valid(ord0[p]));
                }
            }
            assert(final(self)@ =~= seq![value] + old(self)@) by {
                assert forall|i: int|
                    0 <= i < ord1.len() implies self@[i] == (seq![value] + old(self)@)[i] by {
                    assert(self@[i] == self.node_at(i).value);
                }
            }
        }
        Ok(link)
    }

    /// Removes the head node and returns its value, or `ListEmpty` when the
    /// list holds nothing. The freed slot is recycled by the arena.
    pub fn pop_front(&mut self) -> (r: Result<T, ListError>)
        requires
            old(self).wf(),
        ensures
            final(self).wf(),
            final(self).spec_capacity() == old(self).spec_capacity(),
            final(self).arena.generation == old(self).arena.generation,
            old(self).spec_len() == 0 ==> r == Err::<T, ListError>(ListError::ListEmpty) && *final(self) == *old(self),
            old(self).spec_len() > 0 ==> (r matches Ok(v)
                && v == old(self)@[0]
                && final(self)@ == old(self)@.drop_first()
                && final(self).order@ == old(self).order@.drop_first()),
    {
        let head_link = match self.head {
            Some(l) => l,
            None => {
                return Err(ListError::ListEmpty);
            },
        };
        proof {
            assert(self.order@[0] == head_link.index);
            assert(self.arena.valid(self.order@[0]));
        }
        let node = match self.arena.remove(&head_link.index) {
            Some(n) => n,
            None => {
                proof {
                    assert(false);
                }
                return Err(ListError::LinkBroken);
            },
        };
        let ghost a1 = self.arena;
        proof {
            assert(node == old(self).node_at(0));
        }
        self.head = node.next;
        match self.head {
            Some(l) => {
                proof {
                    assert(1 < old(self).spec_len());
                    assert(l.index == old(self).order@[1]);
                    assert(old(self).arena.valid(old(self).order@[1]));
                    assert(old(self).order@[0].idx != old(self).order@[1].idx);
                    assert(self.arena.valid(l.index));
                }
                self.set_prev(l, None);
            },
            None => {
                self.tail = None;
            },
        }
        self.len = self.len - 1;
        self.order = Ghost(self.order@.drop_first());
        proof {
            let ord0 = old(self).order@;
            let ord1 = self.order@;
            let n0 = ord0.len() as int;
            assert(ord1 == ord0.subrange(1, n0));
            assert forall|i: int| 0 <= i < ord1.len() implies ord1[i] == ord0[i + 1] by {}
            assert forall|i: int| 0 <= i < ord1.len() implies self.arena.valid(
                #[trigger] ord1[i],
            ) by {
                assert(ord1[i] == ord0[i + 1]);
                assert(old(self).arena.valid(ord0[i + 1]));
                assert(ord0[0].idx != ord0[i + 1].idx);
            }
            assert forall|i: int, j: int| 0 <= i < j < ord1.len() implies (#[trigger] ord1[i]).idx
                != (#[trigger] ord1[j]).idx by {
                assert(ord1[i] == ord0[i + 1] && ord1[j] == ord0[j + 1]);
            }
            assert forall|i: int| 0 <= i < ord1.len() implies (#[trigger] self.node_at(i)).next
                == (if i + 1 < ord1.len() {
                Some(Link { index: ord1[i + 1] })
            } else {
                None::<Link>
            }) && self.node_at(i).prev == (if 0 < i {
                Some(Link { index: ord1[i - 1] })
            } else {
                None::<Link>
            }) && self.node_at(i).value == old(self)@[i + 1] by {
                assert(ord1[i] == ord0[i + 1]);
                assert(old(self).arena.valid(ord0[i + 1]));
                assert(old(self).node_at(i + 1).next == (if i + 2 < n0 {
                    Some(Link { index: ord0[i + 2] })
                } else {
                    None::<Link>
                }));
                assert(old(self).node_at(i + 1).prev == (if 0 < i + 1 {
                    Some(Link { index: ord0[i] })
                } else {
                    None::<Link>
                }));
                assert(ord0[0].idx != ord0[i + 1].idx);
                assert(a1.value_of(ord0[i + 1]) == old(self).node_at(i + 1));
                if i > 0 {
                    assert(ord0[1].idx != ord0[i + 1].idx);
                    assert(self.arena.value_of(ord1[i]) == a1.value_of(ord0[i + 1]));
                }
            }
            assert forall|j: Index| #[trigger] self.arena.valid(j) implies ord1.contains(j) by {
                assert(a1.valid(j));
                assert(j != head_link.index);
                assert(old(self).arena.valid(j));
                assert(ord0.contains(j));
                let p = choose|p: int| 0 <= p < ord0.len() && ord0[p] == j;
                assert(p != 0);
                assert(ord1[p - 1] == j);
            }
            assert(final(self)@ =~= old(self)@.drop_first()) by {
                assert forall|i: int| 0 <= i < ord1.len() implies self@[i] == old(self)@.drop_first()[i] by {
                    assert(self@[i] == self.node_at(i).value);
                    assert(old(self)@.drop_first()[i] == old(self)@[i + 1]);
                }
            }
        }
        Ok(node.value)
    }

    /// Removes the tail node and returns its value, or `ListEmpty` when the
    /// list holds nothing. The freed slot is recycled by the arena.
    pub fn pop_back(&mut self) -> (r: Result<T, ListError>)
        requires
            old(self).wf(),
        ensures
            final(self).wf(),
            final(self).spec_capacity() == old(self).spec_capacity(),
            final(self).arena.generation == old(self).arena.generation,
            old(self).spec_len() == 0 ==> r == Err::<T, ListError>(ListError::ListEmpty) && *final(self) == *old(self),
            old(self).spec_len() > 0 ==> (r matches Ok(v)
                && v == old(self)@[old(self).spec_len() - 1]
                && final(self)@ == old(self)@.drop_last()
                && final(self).order@ == old(self).order@.drop_last()),
    {
        let tail_link = match self.tail {
            Some(l) => l,
            None => {
                return Err(ListError::ListEmpty);
            },
        };
        proof {
            assert(self.order@[self.order@.len() - 1] == tail_link.index);
            assert(self.arena.valid(self.order@[self.order@.len() - 1]));
        }
        let node = match self.arena.remove(&tail_link.index) {
            Some(n) => n,
            None => {
                proof {
                    assert(false);
                }
                return Err(ListError::LinkBroken);
            },
        };
        let ghost a1 = self.arena;
        proof {
            assert(node == old(self).node_at(old(self).spec_len() - 1));
        }
        self.tail = node.prev;
        match self.tail {
            Some(l) => {
                proof {
                    assert(1 < old(self).spec_len());
                    let n0 = old(self).order@.len() as int;
                    assert(l.index == old(self).order@[n0 - 2]);
                    assert(old(self).arena.valid(old(self).order@[n0 - 2]));
                    assert(old(self).order@[n0 - 2].idx != old(self).order@[n0 - 1].idx);
                    assert(self.arena.valid(l.index));
                }
                self.set_next(l, None);
            },
            None => {
                self.head = None;
            },
        }
        self.len = self.len - 1;
        let ghost n0 = old(self).order@.len() as int;
        self.order = Ghost(self.order@.subrange(0, n0 - 1));
        proof {
            let ord0 = old(self).order@;
            let ord1 = self.order@;
            assert(ord1 == ord0.subrange(0, n0 - 1));
            assert(ord1 =~= ord0.drop_last());
            assert forall|i: int| 0 <= i < ord1.len() implies ord1[i] == ord0[i] by {}
            assert forall|i: int| 0 <= i < ord1.len() implies self.arena.valid(
                #[trigger] ord1[i],
            ) by {
                assert(ord1[i] == ord0[i]);
                assert(old(self).arena.valid(ord0[i]));
                assert(ord0[i].idx != ord0[n0 - 1].idx);
            }
            assert forall|i: int, j: int| 0 <= i < j < ord1.len() implies (#[trigger] ord1[i]).idx
                != (#[trigger] ord1[j]).idx by {
                assert(ord1[i] == ord0[i] && ord1[j] == ord0[j]);
            }
            assert forall|i: int| 0 <= i < ord1.len() implies (#[trigger] self.node_at(i)).next
                == (if i + 1 < ord1.len() {
                Some(Link { index: ord1[i + 1] })
            } else {
                None::<Link>
            }) && self.node_at(i).prev == (if 0 < i {
                Some(Link { index: ord1[i - 1] })
            } else {
                None::<Link>
            }) && self.node_at(i).value == old(self)@[i] by {
                assert(ord1[i] == ord0[i]);
                assert(old(self).arena.valid(ord0[i]));
                assert(old(self).node_at(i).next == (if i + 1 < n0 {
                    Some(Link { index: ord0[i + 1] })
                } else {
                    None::<Link>
                }));
                assert(old(self).node_at(i).prev == (if 0 < i {
                    Some(Link { index: ord0[i - 1] })
                } else {
                    None::<Link>
                }));
                assert(ord0[i].idx != ord0[n0 - 1].idx);
                assert(a1.value_of(ord0[i]) == old(self).node_at(i));
                if i < n0 - 2 {
                    assert(ord0[i].idx != ord0[n0 - 2].idx);
                    assert(self.arena.value_of(ord1[i]) == a1.value_of(ord0[i]));
                }
            }
            assert forall|j: Index| #[trigger] self.arena.valid(j) implies ord1.contains(j) by {
                assert(a1.valid(j));
                assert(j != tail_link.index);
                assert(old(self).arena.valid(j));
                assert(ord0.contains(j));
                let p = choose|p: int| 0 <= p < ord0.len() && ord0[p] == j;
                assert(p != n0 - 1);
                assert(ord1[p] == j);
            }
            assert(final(self)@ =~= old(self)@.drop_last()) by {
                assert forall|i: int| 0 <= i < ord1.len() implies self@[i] == old(self)@.drop_last()[i] by {
                    assert(self@[i] == self.node_at(i).value);
                    assert(old(self)@.drop_last()[i] == old(self)@[i]);
                }
            }
        }
        Ok(node.value)
    }

    /// Removes the node a link resolves to and returns its value: the ends
    /// delegate to the pops, an interior node is unlinked by splicing its
    /// neighbours together. Fails with `ListEmpty` on an empty list and with
    /// `LinkBroken` on a link that does not resolve (stale or foreign).
    pub fn remove(&mut self, link: &Link) -> (r: Result<T, ListError>)
        requires
            old(self).wf(),
        ensures
            final(self).wf(),
            final(self).spec_capacity() == old(self).spec_capacity(),
            final(self).arena.generation == old(self).arena.generation,
            old(self).spec_len() == 0 ==> r == Err::<T, ListError>(ListError::ListEmpty) && *final(self) == *old(self),
            old(self).spec_len() > 0 && !old(self).contains_link(*link) ==> r == Err::<T, ListError>(ListError::LinkBroken) && *final(self) == *old(self),
            old(self).spec_len() > 0 && old(self).contains_link(*link) ==> (r matches Ok(v) && {
                let i = old(self).pos_of(*link);
                &&& v == old(self)@[i]
                &&& final(self)@ == old(self)@.remove(i)
                &&& final(self).order@ == old(self).order@.remove(i)
            }),
    {
        let head_link = match self.head {
            Some(l) => l,
            None => {
                return Err(ListError::ListEmpty);
            },
        };
        let tail_link = match self.tail {
            Some(l) => l,
            None => {
                proof {
                    assert(false);
                }
                return Err(ListError::ListEmpty);
            },
        };
        if *link == head_link {
            proof {
                assert(self.order@[0] == link.index);
                assert(self.order@.contains(link.index));
                old(self).lemma_link_valid(*link);
                assert(old(self).pos_of(*link) == 0);
            }
            let r = self.pop_front();
            proof {
                assert(old(self)@.remove(0) =~= old(self)@.drop_first());
                assert(old(self).order@.remove(0) =~= old(self).order@.drop_first());
            }
            return r;
        }
        if *link == tail_link {
            proof {
                let n0 = self.order@.len() as int;
                assert(self.order@[n0 - 1] == link.index);
                assert(self.order@.contains(link.index));
                old(self).lemma_link_valid(*link);
                assert(old(self).pos_of(*link) == n0 - 1);
            }
            let r = self.pop_back();
            proof {
                let n0 = old(self).order@.len() as int;
                assert(old(self)@.remove(n0 - 1) =~= old(self)@.drop_last());
                assert(old(self).order@.remove(n0 - 1) =~= old(self).order@.drop_last());
            }
            return r;
        }
        proof {
            old(self).lemma_link_valid(*link);
        }
        let node = match self.arena.remove(&link.index) {
            Some(n) => n,
            None => {
                return Err(ListError::LinkBroken);
            },
        };
        let ghost a1 = self.arena;
        let ghost i = old(self).pos_of(*link);
        proof {
            assert(old(self).contains_link(*link));
            assert(old(self).order@[i] == link.index);
            assert(node == old(self).node_at(i));
            assert(i != 0) by {
                if i == 0 {
                    assert(head_link == (Link { index: old(self).order@[0] }));
                }
            }
            assert(i != old(self).spec_len() - 1) by {
                if i == old(self).spec_len() - 1 {
                    assert(tail_link == (Link { index: old(self).order@[i] }));
                }
            }
        }
        let prev_link = match node.prev {
            Some(p) => p,
            None => {
                proof {
                    assert(false);
                }
                return Err(ListError::LinkBroken);
            },
        };
        let next_link = match node.next {
            Some(n) => n,
            None => {
                proof {
                    assert(false);
                }
                return Err(ListError::LinkBroken);
            },
        };
        proof {
            let ord0 = old(self).order@;
            assert(prev_link.index == ord0[i - 1]);
            assert(next_link.index == ord0[i + 1]);
            assert(old(self).arena.valid(ord0[i - 1]));
            assert(old(self).arena.valid(ord0[i + 1]));
            assert(ord0[i - 1].idx != ord0[i].idx);
            assert(ord0[i].idx != ord0[i + 1].idx);
            assert(ord0[i - 1].idx != ord0[i + 1].idx);
            assert(self.arena.valid(prev_link.index));
            assert(self.arena.valid(next_link.index));
        }
        self.set_next(prev_link, Some(next_link));
        self.set_prev(next_link, Some(prev_link));
        let ghost a2 = self.arena;
        self.len = self.len - 1;
        self.order = Ghost(self.order@.remove(i));
        proof {
            let ord0 = old(self).order@;
            let ord1 = self.order@;
            let n0 = ord0.len() as int;
            ord0.remove_ensures(i);
            assert(ord1.len() == n0 - 1);
            assert forall|k: int| 0 <= k < ord1.len() implies ord1[k] == (if k < i {
                ord0[k]
            } else {
                ord0[k + 1]
            }) by {}
            assert forall|k: int| 0 <= k < ord1.len() implies self.arena.valid(
                #[trigger] ord1[k],
            ) by {
                let k0: int = if k < i {
                    k
                } else {
                    k + 1
                };
                assert(ord1[k] == ord0[k0]);
                assert(old(self).arena.valid(ord0[k0]));
                if k0 < i {
                    assert(ord0[k0].idx != ord0[i].idx);
                } else {
                    assert(ord0[i].idx != ord0[k0].idx);
                }
            }
            assert forall|p: int, q: int| 0 <= p < q < ord1.len() implies (#[trigger] ord1[p]).idx
                != (#[trigger] ord1[q]).idx by {
                let p0: int = if p < i {
                    p
                } else {
                    p + 1
                };
                let q0: int = if q < i {
                    q
                } else {
                    q + 1
                };
                assert(ord1[p] == ord0[p0] && ord1[q] == ord0[q0]);
            }
            assert forall|k: int| 0 <= k < ord1.len() implies (#[trigger] self.node_at(k)).next
                == (if k + 1 < ord1.len() {
                Some(Link { index: ord1[k + 1] })
            } else {
                None::<Link>
            }) && self.node_at(k).prev == (if 0 < k {
                Some(Link { index: ord1[k - 1] })
            } else {
                None::<Link>
            }) && self.node_at(k).value == (if k < i {
                old(self)@[k]
            } else {
                old(self)@[k + 1]
            }) by {
                let k0: int = if k < i {
                    k
                } else {
                    k + 1
                };
                assert(ord1[k] == ord0[k0]);
                assert(old(self).arena.valid(ord0[k0]));
                assert(old(self).node_at(k0).next == (if k0 + 1 < n0 {
                    Some(Link { index: ord0[k0 + 1] })
                } else {
                    None::<Link>
                }));
                assert(old(self).node_at(k0).prev == (if 0 < k0 {
                    Some(Link { index: ord0[k0 - 1] })
                } else {
                    None::<Link>
                }));
                if k0 < i {
                    assert(ord0[k0].idx != ord0[i].idx);
                } else {
                    assert(ord0[i].idx != ord0[k0].idx);
                }
                assert(a1.value_of(ord0[k0]) == old(self).node_at(k0));
                if k0 == i - 1 {
                    // the predecessor: its next pointer was redirected
                    assert(self.arena.value_of(ord0[k0]) == (Node {
                        value: a1.value_of(ord0[k0]).value,
                        next: Some(next_link),
                        prev: a1.value_of(ord0[k0]).prev,
                    }));
                } else if k0 == i + 1 {
                    // the successor: its prev pointer was redirected
                    assert(self.arena.value_of(ord0[k0]) == (Node {
                        value: a1.value_of(ord0[k0]).value,
                        next: a1.value_of(ord0[k0]).next,
                        prev: Some(prev_link),
                    }));
                } else {
                    if k0 < i - 1 || k0 > i + 1 {
                        assert(ord0[k0].idx != ord0[i - 1].idx);
                        assert(ord0[k0].idx != ord0[i + 1].idx);
                        assert(self.arena.value_of(ord0[k0]) == a1.value_of(ord0[k0]));
                    }
                }
            }
            assert forall|j: Index| #[trigger] self.arena.valid(j) implies ord1.contains(j) by {
                assert(a1.valid(j));
                assert(j != link.index);
                assert(old(self).arena.valid(j));
                assert(ord0.contains(j));
                let p = choose|p: int| 0 <= p < ord0.len() && ord0[p] == j;
                assert(p != i);
                if p < i {
                    assert(ord1[p] == j);
                } else {
                    assert(ord1[p - 1] == j);
                }
            }
            assert(final(self)@ =~= old(self)@.remove(i)) by {
                old(self)@.remove_ensures(i);
                assert forall|k: int| 0 <= k < ord1.len() implies self@[k] == old(self)@.remove(
                    i,
                )[k] by {
                    assert(self@[k] == self.node_at(k).value);
                }
            }
        }
        Ok(node.value)
    }

    /// Moves the node a link resolves to behind every other node, making it
    /// the tail, without reallocating it: the link stays valid and keeps
    /// referring to the same node. A no-op when the node already is the
    /// tail. Fails with `ListEmpty` on an empty list and with `LinkBroken`
    /// on a link that does not resolve.
    #[verifier::rlimit(80)]
    #[verifier::spinoff_prover]
    pub fn reposition_to_tail(&mut self, link: &Link) -> (r: Result<(), ListError>)
        requires
            old(self).wf(),
        ensures
            final(self).wf(),
            final(self).spec_capacity() == old(self).spec_capacity(),
            final(self).arena.generation == old(self).arena.generation,
            old(self).spec_len() == 0 ==> r == Err::<(), ListError>(ListError::ListEmpty)
                && *final(self) == *old(self),
            old(self).spec_len() > 0 && !old(self).contains_link(*link) ==> r == Err::<
                (),
                ListError,
            >(ListError::LinkBroken) && *final(self) == *old(self),
            old(self).spec_len() > 0 && old(self).contains_link(*link) ==> (r == Ok::<
                (),
                ListError,
            >(()) && {
                let i = old(self).pos_of(*link);
                &&& final(self)@ == old(self)@.remove(i).push(old(self)@[i])
                &&& final(self).order@ == old(self).order@.remove(i).push(link.index)
                &&& final(self).tail == Some(*link)
            }),
    {
        let tail_link = match self.tail {
            Some(l) => l,
            None => {
                return Err(ListError::ListEmpty);
            },
        };
        if *link == tail_link {
            proof {
                let n0 = self.order@.len() as int;
                assert(self.order@[n0 - 1] == link.index);
                assert(self.order@.contains(link.index));
                old(self).lemma_link_valid(*link);
                assert(old(self).pos_of(*link) == n0 - 1);
                old(self)@.remove_ensures(n0 - 1);
                old(self).order@.remove_ensures(n0 - 1);
                assert(old(self)@.remove(n0 - 1).push(old(self)@[n0 - 1]) =~= old(self)@);
                assert(old(self).order@.remove(n0 - 1).push(link.index) =~= old(self).order@);
            }
            return Ok(());
        }
        proof {
            old(self).lemma_link_valid(*link);
        }
        let (node_prev, node_next) = match self.arena.get(&link.index) {
            Some(n) => (n.prev, n.next),
            None => {
                return Err(ListError::LinkBroken);
            },
        };
        let ghost i = old(self).pos_of(*link);
        let ghost ord0 = old(self).order@;
        let ghost n0 = ord0.len() as int;
        proof {
            assert(old(self).contains_link(*link));
            assert(ord0[i] == link.index);
            assert(i != n0 - 1) by {
                if i == n0 - 1 {
                    assert(tail_link == (Link { index: ord0[i] }));
                }
            }
            assert(node_next == old(self).node_at(i).next);
            assert(node_prev == old(self).node_at(i).prev);
        }
        let next_link = match node_next {
            Some(n) => n,
            None => {
                proof {
                    assert(false);
                }
                return Err(ListError::LinkBroken);
            },
        };
        proof {
            assert(next_link.index == ord0[i + 1]);
            assert(old(self).arena.valid(ord0[i + 1]));
            assert(tail_link.index == ord0[n0 - 1]);
            assert(old(self).arena.valid(ord0[n0 - 1]));
        }
        match node_prev {
            Some(prev_link) => {
                proof {
                    assert(0 < i);
                    assert(prev_link.index == ord0[i - 1]);
                    assert(old(self).arena.valid(ord0[i - 1]));
                }
                self.set_next(prev_link, Some(next_link));
            },
            None => {
                proof {
                    assert(i == 0);
                }
                self.head = Some(next_link);
            },
        }
        proof {
            assert(self.arena.valid(next_link.index));
        }
        self.set_prev(next_link, node_prev);
        proof {
            assert(self.arena.valid(tail_link.index));
        }
        self.set_next(tail_link, Some(*link));
        proof {
            assert(self.arena.valid(link.index));
        }
        self.set_prev(*link, Some(tail_link));
        proof {
            assert(self.arena.valid(link.index));
        }
        self.set_next(*link, None);
        self.tail = Some(*link);
        self.order = Ghost(self.order@.remove(i).push(link.index));
        proof {
            let ord1 = self.order@;
            ord0.remove_ensures(i);
            assert(ord1.len() == n0);
            assert forall|k: int| 0 <= k < ord1.len() implies ord1[k] == (if k < i {
                ord0[k]
            } else if k < n0 - 1 {
                ord0[k + 1]
            } else {
                ord0[i]
            }) by {
                if k < n0 - 1 {
                    assert(ord1[k] == ord0.remove(i)[k]);
                }
            }
            assert forall|k: int| 0 <= k < ord1.len() implies self.arena.valid(
                #[trigger] ord1[k],
            ) by {
                let k0: int = if k < i {
                    k
                } else if k < n0 - 1 {
                    k + 1
                } else {
                    i
                };
                assert(ord1[k] == ord0[k0]);
                assert(old(self).arena.valid(ord0[k0]));
            }
            assert forall|p: int, q: int| 0 <= p < q < ord1.len() implies (#[trigger] ord1[p]).idx
                != (#[trigger] ord1[q]).idx by {
                let p0: int = if p < i {
                    p
                } else if p < n0 - 1 {
                    p + 1
                } else {
                    i
                };
                let q0: int = if q < i {
                    q
                } else if q < n0 - 1 {
                    q + 1
                } else {
                    i
                };
                assert(ord1[p] == ord0[p0] && ord1[q] == ord0[q0]);
                assert(p0 != q0);
            }
            assert forall|k: int| 0 <= k < ord1.len() implies (#[trigger] self.node_at(k)).next
                == (if k + 1 < ord1.len() {
                Some(Link { index: ord1[k + 1] })
            } else {
                None::<Link>
            }) && self.node_at(k).prev == (if 0 < k {
                Some(Link { index: ord1[k - 1] })
            } else {
                None::<Link>
            }) && self.node_at(k).value == (if k < i {
                old(self)@[k]
            } else if k < n0 - 1 {
                old(self)@[k + 1]
            } else {
                old(self)@[i]
            }) by {
                let k0: int = if k < i {
                    k
                } else if k < n0 - 1 {
                    k + 1
                } else {
                    i
                };
                assert(ord1[k] == ord0[k0]);
                assert(old(self).arena.valid(ord0[k0]));
                assert(old(self).node_at(k0).next == (if k0 + 1 < n0 {
                    Some(Link { index: ord0[k0 + 1] })
                } else {
                    None::<Link>
                }));
                assert(old(self).node_at(k0).prev == (if 0 < k0 {
                    Some(Link { index: ord0[k0 - 1] })
                } else {
                    None::<Link>
                }));
                if k0 == i {
                    // the relocated node: prev points at the old tail, next is None
                    assert(self.node_at(k).prev == Some(tail_link));
                    assert(self.node_at(k).next == None::<Link>);
                } else if k0 == n0 - 1 {
                    // the old tail: next points at the relocated node
                    assert(self.node_at(k).next == Some(*link));
                    if i + 1 == n0 - 1 {
                        assert(self.node_at(k).prev == node_prev);
                    }
                } else if k0 == i + 1 {
                    // the successor: prev was redirected around the node
                    assert(self.node_at(k).prev == node_prev);
                } else if 0 < i && k0 == i - 1 {
                    // the predecessor: next was redirected around the node
                    assert(self.node_at(k).next == Some(next_link));
                }
            }
            assert forall|j: Index| #[trigger] self.arena.valid(j) implies ord1.contains(j) by {
                assert(old(self).arena.valid(j));
                assert(ord0.contains(j));
                let p = choose|p: int| 0 <= p < ord0.len() && ord0[p] == j;
                if p < i {
                    assert(ord1[p] == j);
                } else if p == i {
                    assert(ord1[n0 - 1] == j);
                } else {
                    assert(ord1[p - 1] == j);
                }
            }
            assert(final(self)@ =~= old(self)@.remove(i).push(old(self)@[i])) by {
                old(self)@.remove_ensures(i);
                assert forall|k: int| 0 <= k < ord1.len() implies self@[k] == old(self)@.remove(
                    i,
                ).push(old(self)@[i])[k] by {
                    assert(self@[k] == self.node_at(k).value);
                    if k < n0 - 1 {
                        assert(old(self)@.remove(i).push(old(self)@[i])[k] == old(self)@.remove(
                            i,
                        )[k]);
                    }
                }
            }
        }
        Ok(())
    }

    /// Starts a forward traversal at the head.
    pub fn iter(&self) -> (r: Iter<T>)
        requires
            self.wf(),
        ensures
            r.wf(),
            r.list == self,
            r.pos@ == 0,
    {
        Iter { list: self, current: self.head, pos: Ghost(0) }
    }

    /// Overwrites the `next` pointer of the node a valid link resolves to,
    /// leaving its value and `prev` pointer alone.
    fn set_next(&mut self, target: Link, next: Option<Link>)
        requires
            old(self).arena.valid(target.index),
        ensures
            final(self).head == old(self).head,
            final(self).tail == old(self).tail,
            final(self).len == old(self).len,
            final(self).order@ == old(self).order@,
            final(self).arena.capacity == old(self).arena.capacity,
            final(self).arena.generation == old(self).arena.generation,
            final(self).arena.free_count() == old(self).arena.free_count(),
            final(self).arena.items@.len() == old(self).arena.items@.len(),
            old(self).arena.wf() ==> final(self).arena.wf(),
            forall|j: Index| final(self).arena.valid(j) <==> old(self).arena.valid(j),
            final(self).arena.value_of(target.index) == (Node {
                value: old(self).arena.value_of(target.index).value,
                next,
                prev: old(self).arena.value_of(target.index).prev,
            }),
            forall|j: Index|
                j != target.index && old(self).arena.valid(j) ==> final(self).arena.value_of(j)
                    == old(self).arena.value_of(j),
    {
        let ghost pre = self.arena;
        match self.arena.get_mut(&target.index) {
            Some(n) => {
                n.next = next;
            },
            None => {
                proof {
                    assert(false);
                }
            },
        }
        proof {
            let v = Node {
                value: pre.value_of(target.index).value,
                next,
                prev: pre.value_of(target.index).prev,
            };
            crate::arena::lemma_value_update(pre, self.arena, target.index, v);
        }
    }

    /// Overwrites the `prev` pointer of the node a valid link resolves to,
    /// leaving its value and `next` pointer alone.
    fn set_prev(&mut self, target: Link, prev: Option<Link>)
        requires
            old(self).arena.valid(target.index),
        ensures
            final(self).head == old(self).head,
            final(self).tail == old(self).tail,
            final(self).len == old(self).len,
            final(self).order@ == old(self).order@,
            final(self).arena.capacity == old(self).arena.capacity,
            final(self).arena.generation == old(self).arena.generation,
            final(self).arena.free_count() == old(self).arena.free_count(),
            final(self).arena.items@.len() == old(self).arena.items@.len(),
            old(self).arena.wf() ==> final(self).arena.wf(),
            forall|j: Index| final(self).arena.valid(j) <==> old(self).arena.valid(j),
            final(self).arena.value_of(target.index) == (Node {
                value: old(self).arena.value_of(target.index).value,
                next: old(self).arena.value_of(target.index).next,
                prev,
            }),
            forall|j: Index|
                j != target.index && old(self).arena.valid(j) ==> final(self).arena.value_of(j)
                    == old(self).arena.value_of(j),
    {
        let ghost pre = self.arena;
        match self.arena.get_mut(&target.index) {
            Some(n) => {
                n.prev = prev;
            },
            None => {
                proof {
                    assert(false);
                }
            },
        }
        proof {
            let v = Node {
                value: pre.value_of(target.index).value,
                next: pre.value_of(target.index).next,
                prev,
            };
            crate::arena::lemma_value_update(pre, self.arena, target.index, v);
        }
    }
}

/// A lazy forward traversal of a [`LinkedList`]: it starts at the head and
/// follows the `next` links. It borrows the list, so the list cannot be
/// mutated while the traversal is alive; calling `iter()` again restarts.
pub struct Iter<'a, T> {
    pub list: &'a LinkedList<T>,
    pub current: Option<Link>,
    pub pos: Ghost<int>,
}

impl<'a, T> Iter<'a, T> {
    /// The traversal stands at position `pos` of a well-formed list, holding
    /// the link of that node (or nothing past the end).
    pub open spec fn wf(self) -> bool {
        &&& self.list.wf()
        &&& 0 <= self.pos@ <= self.list.spec_len()
        &&& self.current == (if self.pos@ < self.list.spec_len() {
            Some(self.list.link_at(self.pos@))
        } else {
            None::<Link>
        })
    }

    /// Hands out a reference to the value at the current position and steps
    /// forward; `None` once the traversal has passed the tail.
    pub fn next(&mut self) -> (r: Option<&'a T>)
        requires
            old(self).wf(),
        ensures
            final(self).wf(),
            final(self).list == old(self).list,
            old(self).pos@ < old(self).list.spec_len() ==> (r matches Some(v)
                && *v == old(self).list@[old(self).pos@]
                && final(self).pos@ == old(self).pos@ + 1),
            old(self).pos@ >= old(self).list.spec_len() ==> r is None && final(self).pos@ == old(
                self,
            ).pos@,
    {
        let cur = match self.current {
            Some(l) => l,
            None => {
                return None;
            },
        };
        proof {
            assert(self.list.order@[self.pos@] == cur.index);
            assert(self.list.order@.contains(cur.index));
            self.list.lemma_link_valid(cur);
        }
        match self.list.get(&cur) {
            Ok(n) => {
                self.current = n.next;
                self.pos = Ghost(self.pos@ + 1);
                Some(&n.value)
            },
            Err(_) => {
                proof {
                    assert(false);
                }
                None
            },
        }
    }
}

impl<T> View for LinkedList<T> {
    type V = Seq<T>;

    /// The sequence of element values in list order, head first.
    open spec fn view(&self) -> Seq<T> {
        Seq::new(self.order@.len(), |i: int| self.node_at(i).value)
    }
}

} // verus!
