//! The least-recently-used cache: a linked list ordered by recency (head =
//! least recently used, tail = most recently used) combined with a key →
//! link index for O(1) point lookup. Both reads and writes of a key count as
//! a use and relocate its node to the tail; when an insert finds the cache
//! full, the head node is evicted to make room.

use std::collections::HashMap;

use vstd::prelude::*;

use crate::list::{Link, LinkedList, ListError};

verus! {

broadcast use vstd::std_specs::hash::group_hash_axioms;

/// The payload stored in each list node: the key travels with the value so
/// that evicting a node also names the index entry to drop.
pub struct Block<V> {
    pub key: u64,
    pub value: V,
}

/// The cache's failures: an ordinary miss (the key is not present), and
/// `CacheBroken`, which wraps the list failure that caused it and signals an
/// internal inconsistency rather than a normal outcome.
#[derive(Debug, Clone, Copy, PartialEq, Eq, Structural)]
pub enum CacheError {
    CacheMiss,
    CacheBroken(ListError),
}

/// A fixed-capacity least-recently-used cache with `u64` keys. Capacity is
/// chosen at construction and never grows on its own.
pub struct LRUCache<V> {
    pub list: LinkedList<Block<V>>,
    pub block_refs: HashMap<u64, Link>,
}

impl<V> LRUCache<V> {
    /// The keys in recency order, least recently used first.
    pub open spec fn keys(self) -> Seq<u64> {
        self.list@.map_values(|b: Block<V>| b.key)
    }

    /// Number of live entries.
    pub open spec fn spec_len(self) -> nat {
        self.list.spec_len()
    }

    /// The fixed number of slots.
    pub open spec fn spec_capacity(self) -> nat {
        self.list.spec_capacity()
    }

    /// The key is indexed (and so queryable).
    pub open spec fn has_key(self, k: u64) -> bool {
        self.block_refs@.contains_key(k)
    }

    /// The recency position of a present key.
    pub open spec fn key_pos(self, k: u64) -> int {
        self.keys().index_of(k)
    }

    /// The value stored under a present key.
    pub open spec fn value_for(self, k: u64) -> V {
        self.list@[self.key_pos(k)].value
    }

    /// The cache's contents as a map from key to value.
    pub open spec fn contents(self) -> Map<u64, V> {
        Map::new(|k: u64| self.keys().contains(k), |k: u64| self.value_for(k))
    }

    /// Well-formedness: the key set of the index equals the set of keys among
    /// the list's blocks, every indexed link resolves to the block carrying
    /// its key, and no key appears in two blocks.
    pub open spec fn wf(self) -> bool {
        &&& self.list.wf()
        &&& (forall|i: int|
            0 <= i < self.list@.len() ==> self.block_refs@.contains_key(
                (#[trigger] self.list@[i]).key,
            ))
        &&& (forall|i: int|
            0 <= i < self.list@.len() ==> self.block_refs@[(#[trigger] self.list@[i]).key]
                == self.list.link_at(i))
        &&& (forall|k: u64|
            #[trigger] self.block_refs@.contains_key(k) ==> self.list.contains_link(
                self.block_refs@[k],
            ) && self.list@[self.list.pos_of(self.block_refs@[k])].key == k)
        &&& (forall|i: int, j: int|
            0 <= i < j < self.list@.len() ==> (#[trigger] self.list@[i]).key != (
            #[trigger] self.list@[j]).key)
    }

    /// The block at a position is indexed under its key, and that key leads
    /// back to exactly this position.
    pub proof fn lemma_key_at(self, i: int)
        requires
            self.wf(),
            0 <= i < self.spec_len(),
        ensures
            self.keys()[i] == self.list@[i].key,
            self.has_key(self.list@[i].key),
            self.keys().contains(self.list@[i].key),
            self.key_pos(self.list@[i].key) == i,
            self.contents().contains_key(self.list@[i].key),
            self.contents()[self.list@[i].key] == self.list@[i].value,
            self.block_refs@[self.list@[i].key] == self.list.link_at(i),
    {
        let k = self.list@[i].key;
        assert(self.keys()[i] == k);
        assert(self.keys().contains(k));
        let p = self.key_pos(k);
        assert(0 <= p < self.keys().len() && self.keys()[p] == k);
        assert(p == i) by {
            if p < i {
                assert(self.list@[p].key != self.list@[i].key);
            } else if i < p {
                assert(self.list@[i].key != self.list@[p].key);
            }
        }
    }

    /// A key is indexed exactly when some block carries it.
    pub proof fn lemma_has_key_iff(self)
        requires
            self.wf(),
        ensures
            forall|k: u64| self.has_key(k) <==> self.keys().contains(k),
    {
        assert forall|k: u64| self.has_key(k) <==> self.keys().contains(k) by {
            if self.has_key(k) {
                let l = self.block_refs@[k];
                self.list.lemma_link_valid(l);
                let q = self.list.pos_of(l);
                assert(self.keys()[q] == k);
            }
            if self.keys().contains(k) {
                let q = choose|q: int| 0 <= q < self.keys().len() && self.keys()[q] == k;
                assert(self.list@[q].key == k);
                assert(self.block_refs@.contains_key(self.list@[q].key));
            }
        }
    }

    /// What the index entry of a present key resolves to: the unique block
    /// carrying the key, at the key's recency position.
    pub proof fn lemma_lookup(self, key: u64)
        requires
            self.wf(),
            self.has_key(key),
        ensures
            ({
                let link = self.block_refs@[key];
                let i = self.key_pos(key);
                &&& self.list.contains_link(link)
                &&& 0 <= i < self.spec_len()
                &&& self.list.pos_of(link) == i
                &&& self.list@[i].key == key
                &&& self.keys()[i] == key
                &&& self.keys().contains(key)
                &&& self.contents().contains_key(key)
                &&& self.contents()[key] == self.list@[i].value
                &&& link == self.list.link_at(i)
            }),
    {
        let link = self.block_refs@[key];
        self.list.lemma_link_valid(link);
        let q = self.list.pos_of(link);
        assert(self.list@[q].key == key);
        self.lemma_key_at(q);
        assert(self.key_pos(key) == q);
    }

    /// Relocating the block at position `i` to the tail (the most recently
    /// used end) leaves the cache well formed and its contents untouched:
    /// only the recency order changes.
    #[verifier::rlimit(80)]
    #[verifier::spinoff_prover]
    proof fn lemma_permuted(pre: Self, post: Self, i: int)
        requires
            pre.wf(),
            0 <= i < pre.spec_len(),
            post.list.wf(),
            post.list@ == pre.list@.remove(i).push(pre.list@[i]),
            post.list.order@ == pre.list.order@.remove(i).push(pre.list.order@[i]),
            post.block_refs@ == pre.block_refs@,
        ensures
            post.wf(),
            post.spec_len() == pre.spec_len(),
            post.keys() == pre.keys().remove(i).push(pre.keys()[i]),
            post.contents() == pre.contents(),
    {
        let n0 = pre.list@.len() as int;
        pre.list@.remove_ensures(i);
        pre.list.order@.remove_ensures(i);
        pre.keys().remove_ensures(i);
        assert(post.list@.len() == n0);
        assert forall|k: int| 0 <= k < n0 implies post.list@[k] == pre.list@[perm_from(k, i, n0)]
            && post.list.order@[k] == pre.list.order@[perm_from(k, i, n0)] by {
            if k < n0 - 1 {
                assert(post.list@[k] == pre.list@.remove(i)[k]);
                assert(post.list.order@[k] == pre.list.order@.remove(i)[k]);
            }
        }
        assert forall|p: int, q: int| 0 <= p < q < n0 implies (#[trigger] post.list@[p]).key != (
        #[trigger] post.list@[q]).key by {
            assert(post.list@[p] == pre.list@[perm_from(p, i, n0)]);
            assert(post.list@[q] == pre.list@[perm_from(q, i, n0)]);
            assert(perm_from(p, i, n0) != perm_from(q, i, n0));
        }
        assert forall|k: int|
            0 <= k < n0 implies post.block_refs@.contains_key((#[trigger] post.list@[k]).key)
                && post.block_refs@[post.list@[k].key] == post.list.link_at(k) by {
            let k0 = perm_from(k, i, n0);
            assert(post.list@[k] == pre.list@[k0]);
            assert(pre.block_refs@.contains_key(pre.list@[k0].key));
            assert(pre.block_refs@[pre.list@[k0].key] == pre.list.link_at(k0));
        }
        assert forall|k: u64| #[trigger] post.block_refs@.contains_key(k) implies
            post.list.contains_link(post.block_refs@[k]) && post.list@[post.list.pos_of(
            post.block_refs@[k],
        )].key == k by {
            pre.lemma_lookup(k);
            let q = pre.key_pos(k);
            let l = pre.block_refs@[k];
            let qq: int = if q < i {
                q
            } else if q == i {
                n0 - 1
            } else {
                q - 1
            };
            assert(perm_from(qq, i, n0) == q);
            assert(post.list.order@[qq] == l.index);
            assert(post.list.order@.contains(l.index));
            post.list.lemma_link_valid(l);
            assert(post.list.pos_of(l) == qq);
            assert(post.list@[qq].key == k);
        }
        assert(post.keys() =~= pre.keys().remove(i).push(pre.keys()[i])) by {
            assert forall|k: int| 0 <= k < n0 implies post.keys()[k] == pre.keys().remove(i).push(
                pre.keys()[i],
            )[k] by {
                assert(post.keys()[k] == post.list@[k].key);
                let k0 = perm_from(k, i, n0);
                if k < n0 - 1 {
                    assert(pre.keys().remove(i).push(pre.keys()[i])[k] == pre.keys().remove(i)[k]);
                    assert(pre.keys().remove(i)[k] == pre.keys()[k0]);
                } else {
                    assert(pre.keys().remove(i).push(pre.keys()[i])[k] == pre.keys()[i]);
                }
                assert(pre.keys()[k0] == pre.list@[k0].key);
            }
        }
        assert(post.wf());
        Self::lemma_permuted_contents(pre, post, i);
    }

    /// After the relocation the same blocks are present, so the contents map
    /// is unchanged.
    #[verifier::spinoff_prover]
    proof fn lemma_permuted_contents(pre: Self, post: Self, i: int)
        requires
            pre.wf(),
            post.wf(),
            0 <= i < pre.spec_len(),
            post.list@ == pre.list@.remove(i).push(pre.list@[i]),
        ensures
            post.contents() == pre.contents(),
    {
        let n0 = pre.list@.len() as int;
        pre.list@.remove_ensures(i);
        assert(post.list@.len() == n0);
        assert forall|k: int|
            0 <= k < n0 implies post.list@[k] == pre.list@[perm_from(k, i, n0)] by {
            if k < n0 - 1 {
                assert(post.list@[k] == pre.list@.remove(i)[k]);
            }
        }
        assert(post.contents() =~= pre.contents()) by {
            assert forall|k: u64| pre.keys().contains(k) implies post.keys().contains(k) by {
                let q = choose|q: int| 0 <= q < pre.keys().len() && pre.keys()[q] == k;
                assert(pre.list@[q].key == k);
                let qq: int = if q < i {
                    q
                } else if q == i {
                    n0 - 1
                } else {
                    q - 1
                };
                assert(perm_from(qq, i, n0) == q);
                assert(post.list@[qq].key == k);
                post.lemma_key_at(qq);
            }
            assert forall|k: u64| post.keys().contains(k) implies pre.keys().contains(k) by {
                let q = choose|q: int| 0 <= q < post.keys().len() && post.keys()[q] == k;
                assert(post.list@[q].key == k);
                assert(post.list@[q] == pre.list@[perm_from(q, i, n0)]);
                pre.lemma_key_at(perm_from(q, i, n0));
            }
            assert forall|k: u64| post.contents().contains_key(k) implies post.contents()[k]
                == pre.contents()[k] by {
                let q = choose|q: int| 0 <= q < post.keys().len() && post.keys()[q] == k;
                assert(post.list@[q].key == k);
                post.lemma_key_at(q);
                assert(post.contents()[k] == post.list@[q].value);
                let q0 = perm_from(q, i, n0);
                assert(post.list@[q] == pre.list@[q0]);
                pre.lemma_key_at(q0);
                assert(pre.contents()[k] == pre.list@[q0].value);
            }
        }
    }

    /// Replacing the value of the block that carries a present key, in
    /// place, keeps the cache well formed and only rebinds that key in the
    /// contents; the recency order is untouched.
    #[verifier::spinoff_prover]
    proof fn lemma_value_updated(pre: Self, post: Self, key: u64, value: V)
        requires
            pre.wf(),
            pre.has_key(key),
            post.list.wf(),
            post.list@ == pre.list@.update(pre.key_pos(key), Block { key, value }),
            post.list.order@ == pre.list.order@,
            post.block_refs@ == pre.block_refs@,
        ensures
            post.wf(),
            post.spec_len() == pre.spec_len(),
            post.keys() == pre.keys(),
            post.key_pos(key) == pre.key_pos(key),
            post.contents() == pre.contents().insert(key, value),
    {
        broadcast use vstd::seq::lemma_seq_update_different_alt, vstd::seq::lemma_seq_update_same_alt;

        pre.lemma_lookup(key);
        let i = pre.key_pos(key);
        let n0 = pre.list@.len() as int;
        assert(post.list@.len() == n0);
        assert forall|k: int| 0 <= k < n0 implies post.list@[k] == (if k == i {
            Block { key, value }
        } else {
            pre.list@[k]
        }) by {
            if k != i {
                assert(post.list@[k] == pre.list@[k]);
            }
        }
        assert(post.keys() =~= pre.keys()) by {
            assert forall|k: int| 0 <= k < n0 implies post.keys()[k] == pre.keys()[k] by {
                assert(post.keys()[k] == post.list@[k].key);
                assert(pre.keys()[k] == pre.list@[k].key);
            }
        }
        assert forall|k: int|
            0 <= k < n0 implies post.block_refs@.contains_key((#[trigger] post.list@[k]).key)
                && post.block_refs@[post.list@[k].key] == post.list.link_at(k) by {
            assert(post.list@[k].key == pre.list@[k].key);
            assert(pre.block_refs@.contains_key(pre.list@[k].key));
            assert(pre.block_refs@[pre.list@[k].key] == pre.list.link_at(k));
        }
        assert forall|k: u64| #[trigger] post.block_refs@.contains_key(k) implies
            post.list.contains_link(post.block_refs@[k]) && post.list@[post.list.pos_of(
            post.block_refs@[k],
        )].key == k by {
            pre.lemma_lookup(k);
            let q = pre.list.pos_of(pre.block_refs@[k]);
            assert(post.list.contains_link(post.block_refs@[k]));
            assert(post.list.pos_of(post.block_refs@[k]) == q);
            assert(post.list@[q].key == pre.list@[q].key);
        }
        assert forall|p: int, q: int| 0 <= p < q < n0 implies (#[trigger] post.list@[p]).key != (
        #[trigger] post.list@[q]).key by {
            assert(post.list@[p].key == pre.list@[p].key);
            assert(post.list@[q].key == pre.list@[q].key);
        }
        assert(post.wf());
        assert(post.contents() =~= pre.contents().insert(key, value)) by {
            post.lemma_has_key_iff();
            pre.lemma_has_key_iff();
            assert forall|k: u64| post.contents().contains_key(k) implies post.contents()[k] == (
            if k == key {
                value
            } else {
                pre.contents()[k]
            }) by {
                let q = choose|q: int| 0 <= q < post.keys().len() && post.keys()[q] == k;
                assert(post.list@[q].key == k);
                post.lemma_key_at(q);
                assert(post.contents()[k] == post.list@[q].value);
                if k == key {
                    assert(q == post.key_pos(key));
                    assert(q == i) by {
                        assert(post.keys()[i] == pre.keys()[i]);
                        assert(pre.keys()[i] == key);
                    }
                } else {
                    assert(q != i);
                    assert(post.list@[q] == pre.list@[q]);
                    pre.lemma_key_at(q);
                }
            }
        }
    }

    /// Appending a fresh key's block at the tail and indexing its link adds
    /// exactly that binding: the key becomes the most recently used entry.
    #[verifier::spinoff_prover]
    proof fn lemma_pushed(pre: Self, post: Self, key: u64, value: V, link: Link)
        requires
            pre.wf(),
            !pre.has_key(key),
            post.list.wf(),
            post.list@ == pre.list@.push(Block { key, value }),
            post.list.order@ == pre.list.order@.push(link.index),
            !pre.list.contains_link(link),
            post.block_refs@ == pre.block_refs@.insert(key, link),
        ensures
            post.wf(),
            post.spec_len() == pre.spec_len() + 1,
            post.keys() == pre.keys().push(key),
            post.contents() == pre.contents().insert(key, value),
    {
        pre.lemma_has_key_iff();
        let n0 = pre.list@.len() as int;
        assert(post.list@.len() == n0 + 1);
        assert forall|k: int| 0 <= k < n0 implies post.list@[k] == pre.list@[k]
            && post.list.order@[k] == pre.list.order@[k] by {}
        assert(post.list@[n0] == (Block { key, value }));
        assert(post.list.order@[n0] == link.index);
        assert forall|k: int| 0 <= k < n0 implies (#[trigger] pre.list@[k]).key != key by {
            pre.lemma_key_at(k);
            assert(pre.keys().contains(pre.list@[k].key));
        }
        assert(post.keys() =~= pre.keys().push(key)) by {
            assert forall|k: int| 0 <= k < n0 + 1 implies post.keys()[k] == pre.keys().push(
                key,
            )[k] by {
                assert(post.keys()[k] == post.list@[k].key);
                if k < n0 {
                    assert(pre.keys()[k] == pre.list@[k].key);
                }
            }
        }
        assert forall|k: int|
            0 <= k < n0 + 1 implies post.block_refs@.contains_key((#[trigger] post.list@[k]).key)
                && post.block_refs@[post.list@[k].key] == post.list.link_at(k) by {
            if k < n0 {
                assert(post.list@[k].key == pre.list@[k].key);
                assert(pre.block_refs@.contains_key(pre.list@[k].key));
                assert(pre.block_refs@[pre.list@[k].key] == pre.list.link_at(k));
                assert(pre.list@[k].key != key);
            } else {
                assert(post.list@[k].key == key);
            }
        }
        assert forall|k: u64| #[trigger] post.block_refs@.contains_key(k) implies
            post.list.contains_link(post.block_refs@[k]) && post.list@[post.list.pos_of(
            post.block_refs@[k],
        )].key == k by {
            if k == key {
                assert(post.block_refs@[k] == link);
                assert(post.list.order@[n0] == link.index);
                assert(post.list.order@.contains(link.index));
                post.list.lemma_link_valid(link);
                assert(post.list.pos_of(link) == n0);
            } else {
                pre.lemma_lookup(k);
                let q = pre.list.pos_of(pre.block_refs@[k]);
                let l = pre.block_refs@[k];
                assert(post.block_refs@[k] == l);
                assert(post.list.order@[q] == l.index);
                assert(post.list.order@.contains(l.index));
                post.list.lemma_link_valid(l);
                assert(post.list.pos_of(l) == q);
                assert(post.list@[q].key == k);
            }
        }
        assert forall|p: int, q: int| 0 <= p < q < n0 + 1 implies (#[trigger] post.list@[p]).key
            != (#[trigger] post.list@[q]).key by {
            if q < n0 {
                assert(post.list@[p].key == pre.list@[p].key);
                assert(post.list@[q].key == pre.list@[q].key);
            } else {
                assert(post.list@[p].key == pre.list@[p].key);
                assert(pre.list@[p].key != key);
            }
        }
        assert(post.wf());
        assert(post.contents() =~= pre.contents().insert(key, value)) by {
            post.lemma_has_key_iff();
            assert forall|k: u64| pre.keys().contains(k) implies post.keys().contains(k) by {
                let q = choose|q: int| 0 <= q < pre.keys().len() && pre.keys()[q] == k;
                assert(post.keys()[q] == k);
            }
            assert(post.keys()[n0] == key);
            assert(post.keys().contains(key));
            assert forall|k: u64| post.keys().contains(k) implies k == key || pre.keys().contains(
                k,
            ) by {
                let q = choose|q: int| 0 <= q < post.keys().len() && post.keys()[q] == k;
                if q < n0 {
                    assert(pre.keys()[q] == k);
                }
            }
            assert forall|k: u64| post.contents().contains_key(k) implies post.contents()[k] == (
            if k == key {
                value
            } else {
                pre.contents()[k]
            }) by {
                let q = choose|q: int| 0 <= q < post.keys().len() && post.keys()[q] == k;
                assert(post.list@[q].key == k);
                post.lemma_key_at(q);
                assert(post.contents()[k] == post.list@[q].value);
                if k == key {
                    assert(q == n0) by {
                        if q < n0 {
                            assert(pre.list@[q].key != key);
                        }
                    }
                } else {
                    assert(q != n0);
                    assert(post.list@[q] == pre.list@[q]);
                    pre.lemma_key_at(q);
                }
            }
        }
    }

    /// Dropping a present key's block from the list together with its index
    /// entry removes exactly that binding.
    #[verifier::spinoff_prover]
    proof fn lemma_removed(pre: Self, post: Self, key: u64)
        requires
            pre.wf(),
            pre.has_key(key),
            post.list.wf(),
            post.list@ == pre.list@.remove(pre.key_pos(key)),
            post.list.order@ == pre.list.order@.remove(pre.key_pos(key)),
            post.block_refs@ == pre.block_refs@.remove(key),
        ensures
            post.wf(),
            post.spec_len() + 1 == pre.spec_len(),
            post.keys() == pre.keys().remove(pre.key_pos(key)),
            post.contents() == pre.contents().remove(key),
            !post.has_key(key),
    {
        pre.lemma_lookup(key);
        let i = pre.key_pos(key);
        let n0 = pre.list@.len() as int;
        pre.list@.remove_ensures(i);
        pre.list.order@.remove_ensures(i);
        pre.keys().remove_ensures(i);
        assert(post.list@.len() == n0 - 1);
        assert forall|k: int| 0 <= k < n0 - 1 implies post.list@[k] == pre.list@[shift_from(k, i)]
            && post.list.order@[k] == pre.list.order@[shift_from(k, i)] by {
            assert(post.list@[k] == pre.list@.remove(i)[k]);
            assert(post.list.order@[k] == pre.list.order@.remove(i)[k]);
        }
        assert forall|k: int| 0 <= k < n0 && k != i implies (#[trigger] pre.list@[k]).key
            != key by {
            if k < i {
                assert(pre.list@[k].key != pre.list@[i].key);
            } else {
                assert(pre.list@[i].key != pre.list@[k].key);
            }
        }
        assert(post.keys() =~= pre.keys().remove(i)) by {
            assert forall|k: int| 0 <= k < n0 - 1 implies post.keys()[k] == pre.keys().remove(
                i,
            )[k] by {
                assert(post.keys()[k] == post.list@[k].key);
                assert(pre.keys().remove(i)[k] == pre.keys()[shift_from(k, i)]);
                assert(pre.keys()[shift_from(k, i)] == pre.list@[shift_from(k, i)].key);
            }
        }
        assert forall|k: int|
            0 <= k < n0 - 1 implies post.block_refs@.contains_key((#[trigger] post.list@[k]).key)
                && post.block_refs@[post.list@[k].key] == post.list.link_at(k) by {
            let k0 = shift_from(k, i);
            assert(post.list@[k] == pre.list@[k0]);
            assert(pre.block_refs@.contains_key(pre.list@[k0].key));
            assert(pre.block_refs@[pre.list@[k0].key] == pre.list.link_at(k0));
            assert(pre.list@[k0].key != key);
        }
        assert forall|k: u64| #[trigger] post.block_refs@.contains_key(k) implies
            post.list.contains_link(post.block_refs@[k]) && post.list@[post.list.pos_of(
            post.block_refs@[k],
        )].key == k by {
            assert(k != key);
            pre.lemma_lookup(k);
            let q = pre.list.pos_of(pre.block_refs@[k]);
            let l = pre.block_refs@[k];
            assert(post.block_refs@[k] == l);
            assert(q != i) by {
                assert(pre.list@[q].key == k);
            }
            let qq: int = if q < i {
                q
            } else {
                q - 1
            };
            assert(shift_from(qq, i) == q);
            assert(post.list.order@[qq] == l.index);
            assert(post.list.order@.contains(l.index));
            post.list.lemma_link_valid(l);
            assert(post.list.pos_of(l) == qq);
            assert(post.list@[qq].key == k);
        }
        assert forall|p: int, q: int| 0 <= p < q < n0 - 1 implies (#[trigger] post.list@[p]).key
            != (#[trigger] post.list@[q]).key by {
            assert(post.list@[p] == pre.list@[shift_from(p, i)]);
            assert(post.list@[q] == pre.list@[shift_from(q, i)]);
        }
        assert(post.wf());
        assert(post.contents() =~= pre.contents().remove(key)) by {
            assert forall|k: u64| pre.keys().contains(k) && k != key implies post.keys().contains(
                k,
            ) by {
                let q = choose|q: int| 0 <= q < pre.keys().len() && pre.keys()[q] == k;
                assert(pre.list@[q].key == k);
                assert(q != i);
                let qq: int = if q < i {
                    q
                } else {
                    q - 1
                };
                assert(post.list@[qq].key == k);
                assert(post.keys()[qq] == k);
            }
            assert forall|k: u64| post.keys().contains(k) implies pre.keys().contains(k) && k
                != key by {
                let q = choose|q: int| 0 <= q < post.keys().len() && post.keys()[q] == k;
                assert(post.list@[q].key == k);
                assert(post.list@[q] == pre.list@[shift_from(q, i)]);
                pre.lemma_key_at(shift_from(q, i));
                assert(pre.list@[shift_from(q, i)].key != key);
            }
            assert forall|k: u64| post.contents().contains_key(k) implies post.contents()[k]
                == pre.contents()[k] by {
                let q = choose|q: int| 0 <= q < post.keys().len() && post.keys()[q] == k;
                assert(post.list@[q].key == k);
                post.lemma_key_at(q);
                assert(post.contents()[k] == post.list@[q].value);
                let q0 = shift_from(q, i);
                assert(post.list@[q] == pre.list@[q0]);
                pre.lemma_key_at(q0);
                assert(pre.contents()[k] == pre.list@[q0].value);
            }
        }
    }

    /// Creates a cache with room for exactly `capacity` entries and an empty
    /// index. A capacity of zero yields a cache that can never hold anything:
    /// every insert fails, because the underlying list is simultaneously full
    /// and empty, so eviction pops from an empty list.
    pub fn with_capacity(capacity: usize) -> (r: Self)
        ensures
            r.wf(),
            r.spec_capacity() == capacity,
            r.spec_len() == 0,
            r.keys() == Seq::<u64>::empty(),
            r.contents() == Map::<u64, V>::empty(),
            r.list.arena.generation == 0,
    {
        let c = LRUCache { list: LinkedList::with_capacity(capacity), block_refs: HashMap::new() };
        proof {
            assert(c.keys() =~= Seq::<u64>::empty());
            assert(c.contents() =~= Map::<u64, V>::empty());
        }
        c
    }

    /// Number of live entries.
    pub fn len(&self) -> (r: usize)
        requires
            self.wf(),
        ensures
            r == self.spec_len(),
    {
        self.list.len()
    }

    /// The fixed number of slots chosen at construction.
    pub fn capacity(&self) -> (r: usize)
        requires
            self.wf(),
        ensures
            r == self.spec_capacity(),
    {
        self.list.arena.capacity()
    }

    /// Looks a key up. On a hit the entry becomes the most recently used —
    /// a query mutates the recency order even though the contents stay as
    /// they are — and a reference to its value is returned. On a miss,
    /// `CacheMiss`. `CacheBroken` would signal an indexed link that fails to
    /// resolve, which cannot happen while the invariant holds.
    pub fn query(&mut self, key: u64) -> (r: Result<&V, CacheError>)
        requires
            old(self).wf(),
        ensures
            final(self).wf(),
            final(self).spec_capacity() == old(self).spec_capacity(),
            final(self).list.arena.generation == old(self).list.arena.generation,
            !old(self).has_key(key) ==> r == Err::<&V, CacheError>(CacheError::CacheMiss)
                && *final(self) == *old(self),
            old(self).has_key(key) ==> (r matches Ok(v)
                && *v == old(self).contents()[key]
                && final(self).keys() == old(self).keys().remove(old(self).key_pos(key)).push(key)
                && final(self).contents() == old(self).contents()
                && final(self).block_refs@ == old(self).block_refs@
                && final(self).spec_len() == old(self).spec_len()),
    {
        let link = match self.block_refs.get(&key) {
            Some(l) => *l,
            None => {
                return Err(CacheError::CacheMiss);
            },
        };
        proof {
            assert(old(self).has_key(key));
            assert(link == old(self).block_refs@[key]);
            old(self).lemma_lookup(key);
        }
        let ghost i = old(self).key_pos(key);
        match self.list.reposition_to_tail(&link) {
            Ok(()) => {},
            Err(e) => {
                proof {
                    assert(false);
                }
                return Err(CacheError::CacheBroken(e));
            },
        }
        proof {
            Self::lemma_permuted(*old(self), *self, i);
            assert(self.keys()[self.spec_len() - 1] == key);
        }
        let node = match self.list.get(&link) {
            Ok(n) => n,
            Err(_) => {
                proof {
                    assert(false);
                }
                return Err(CacheError::CacheBroken(ListError::LinkBroken));
            },
        };
        proof {
            self.list.lemma_link_valid(link);
            assert(self.list.pos_of(link) == self.spec_len() - 1);
            self.lemma_key_at(self.spec_len() - 1);
            assert(self.list@[self.spec_len() - 1].value == self.contents()[key]);
        }
        Ok(&node.value.value)
    }

    /// Inserts a binding. An already-present key has its value replaced in
    /// place and counts as used (its entry moves to the most recently used
    /// end); capacity is unaffected. A fresh key is appended at that end,
    /// after evicting the least recently used entry when the cache is full.
    /// Only the degenerate zero-capacity cache fails — eviction pops from an
    /// empty list — and it fails every insert, with nothing changed.
    pub fn insert(&mut self, key: u64, value: V) -> (r: Result<(), CacheError>)
        requires
            old(self).wf(),
            !old(self).has_key(key) ==> old(self).list.arena.generation < u64::MAX,
        ensures
            final(self).wf(),
            final(self).spec_capacity() == old(self).spec_capacity(),
            final(self).keys() == lru_keys_after_insert(
                old(self).keys(),
                old(self).spec_capacity(),
                key,
            ),
            final(self).list.arena.generation <= old(self).list.arena.generation + 1,
            old(self).has_key(key) ==> r == Ok::<(), CacheError>(()) && final(self).contents()
                == old(self).contents().insert(key, value) && final(self).spec_len() == old(self).spec_len(),
            !old(self).has_key(key) && old(self).spec_len() < old(self).spec_capacity() ==> r
                == Ok::<(), CacheError>(()) && final(self).contents() == old(self).contents().insert(key, value) && final(self).spec_len() == old(self).spec_len() + 1,
            !old(self).has_key(key) && old(self).spec_len() == old(self).spec_capacity() && old(self).spec_capacity() > 0 ==> r == Ok::<(), CacheError>(()) && final(self).contents()
                == old(self).contents().remove(old(self).keys()[0]).insert(key, value) && final(self).spec_len() == old(self).spec_len(),
            !old(self).has_key(key) && old(self).spec_capacity() == 0 ==> r == Err::<
                (),
                CacheError,
            >(CacheError::CacheBroken(ListError::ListEmpty)) && *final(self) == *old(self),
    {
        let link_opt = match self.block_refs.get(&key) {
            Some(l) => Some(*l),
            None => None,
        };
        match link_opt {
            Some(link) => {
                proof {
                    assert(old(self).has_key(key));
                    assert(link == old(self).block_refs@[key]);
                    old(self).lemma_lookup(key);
                    old(self).lemma_has_key_iff();
                }
                let ghost i = old(self).key_pos(key);
                match self.list.set_value(&link, Block { key, value }) {
                    Ok(()) => {},
                    Err(e) => {
                        proof {
                            assert(false);
                        }
                        return Err(CacheError::CacheBroken(e));
                    },
                }
                proof {
                    Self::lemma_value_updated(*old(self), *self, key, value);
                }
                let ghost c1 = *self;
                match self.list.reposition_to_tail(&link) {
                    Ok(()) => {},
                    Err(e) => {
                        proof {
                            assert(c1.list.contains_link(link));
                            assert(false);
                        }
                        return Err(CacheError::CacheBroken(e));
                    },
                }
                proof {
                    c1.lemma_lookup(key);
                    assert(c1.list.pos_of(link) == i);
                    Self::lemma_permuted(c1, *self, i);
                    assert(c1.keys()[i] == key);
                    assert(self.keys() == old(self).keys().remove(i).push(key));
                }
                Ok(())
            },
            None => {
                proof {
                    assert(!old(self).has_key(key));
                    old(self).lemma_has_key_iff();
                }
                if self.list.full() {
                    let evicted = match self.list.pop_front() {
                        Ok(b) => b,
                        Err(e) => {
                            proof {
                                assert(old(self).spec_len() == 0);
                                assert(old(self).spec_capacity() == 0);
                                assert(e == ListError::ListEmpty);
                            }
                            return Err(CacheError::CacheBroken(e));
                        },
                    };
                    proof {
                        assert(evicted == old(self).list@[0]);
                        old(self).lemma_key_at(0);
                        assert(old(self).key_pos(evicted.key) == 0);
                    }
                    self.block_refs.remove(&evicted.key);
                    proof {
                        assert(old(self).list@.remove(0) =~= old(self).list@.drop_first());
                        assert(old(self).list.order@.remove(0) =~= old(self).list.order@.drop_first());
                        Self::lemma_removed(*old(self), *self, evicted.key);
                    }
                }
                let ghost c1 = *self;
                proof {
                    assert(c1.spec_len() < c1.spec_capacity());
                    assert(!c1.has_key(key));
                }
                let link = match self.list.push_back(Block { key, value }) {
                    Ok(l) => l,
                    Err(e) => {
                        proof {
                            assert(false);
                        }
                        return Err(CacheError::CacheBroken(e));
                    },
                };
                self.block_refs.insert(key, link);
                proof {
                    Self::lemma_pushed(c1, *self, key, value, link);
                    if old(self).spec_len() == old(self).spec_capacity() && old(self).spec_capacity() > 0 {
                        assert(old(self).keys().remove(0) =~= old(self).keys().drop_first());
                    }
                }
                Ok(())
            },
        }
    }

    /// Removes a key's binding and hands back the owned value; `CacheMiss`
    /// when the key is not present, with nothing changed. A removed key
    /// misses on every later query until it is inserted again.
    pub fn remove(&mut self, key: u64) -> (r: Result<V, CacheError>)
        requires
            old(self).wf(),
        ensures
            final(self).wf(),
            final(self).spec_capacity() == old(self).spec_capacity(),
            final(self).keys() == lru_keys_after_remove(old(self).keys(), key),
            final(self).list.arena.generation == old(self).list.arena.generation,
            !final(self).has_key(key),
            !old(self).has_key(key) ==> r == Err::<V, CacheError>(CacheError::CacheMiss) && *final(self) == *old(self),
            old(self).has_key(key) ==> (r matches Ok(v)
                && v == old(self).contents()[key]
                && final(self).contents() == old(self).contents().remove(key)
                && final(self).spec_len() + 1 == old(self).spec_len()),
    {
        if !self.block_refs.contains_key(&key) {
            proof {
                old(self).lemma_has_key_iff();
            }
            return Err(CacheError::CacheMiss);
        }
        let link = match self.block_refs.remove(&key) {
            Some(l) => l,
            None => {
                proof {
                    assert(false);
                }
                return Err(CacheError::CacheMiss);
            },
        };
        proof {
            assert(old(self).has_key(key));
            assert(link == old(self).block_refs@[key]);
            old(self).lemma_lookup(key);
            old(self).lemma_has_key_iff();
        }
        let block = match self.list.remove(&link) {
            Ok(b) => b,
            Err(e) => {
                proof {
                    assert(false);
                }
                return Err(CacheError::CacheBroken(e));
            },
        };
        proof {
            Self::lemma_removed(*old(self), *self, key);
        }
        Ok(block.value)
    }
}

/// The recency-ordered key sequence (least recently used first) after an
/// insert: a present key is relocated to the most recently used end, a fresh
/// key is appended — after evicting the least recently used key when the
/// cache is full. With capacity zero the insert fails and nothing changes.
pub open spec fn lru_keys_after_insert(keys: Seq<u64>, cap: nat, k: u64) -> Seq<u64> {
    if keys.contains(k) {
        keys.remove(keys.index_of(k)).push(k)
    } else if keys.len() < cap {
        keys.push(k)
    } else if cap == 0 {
        keys
    } else {
        keys.drop_first().push(k)
    }
}

/// The recency-ordered key sequence after a removal: a present key's entry
/// disappears, a missing key changes nothing.
pub open spec fn lru_keys_after_remove(keys: Seq<u64>, k: u64) -> Seq<u64> {
    if keys.contains(k) {
        keys.remove(keys.index_of(k))
    } else {
        keys
    }
}

/// The recency-ordered key sequence after inserting each key of `ks` in
/// turn, front of `ks` first.
pub open spec fn lru_keys_after_inserts(keys: Seq<u64>, cap: nat, ks: Seq<u64>) -> Seq<u64>
    decreases ks.len(),
{
    if ks.len() == 0 {
        keys
    } else {
        lru_keys_after_inserts(lru_keys_after_insert(keys, cap, ks[0]), cap, ks.drop_first())
    }
}

/// Capacity bound: a well-formed cache never holds more live entries than
/// its configured capacity. Every operation preserves well-formedness, so
/// the bound holds after any sequence of operations.
pub proof fn lemma_capacity_bound<V>(c: &LRUCache<V>)
    requires
        c.wf(),
    ensures
        c.spec_len() <= c.spec_capacity(),
{
}

/// Index/key consistency: the set of keys for which a query can succeed
/// (the indexed keys) equals exactly the set of keys carried by the blocks
/// of the recency list — no orphaned index entries, no unindexed blocks.
/// Every operation preserves well-formedness, so this holds after any
/// sequence of inserts, removals and queries.
pub proof fn lemma_index_key_consistency<V>(c: &LRUCache<V>)
    requires
        c.wf(),
    ensures
        forall|k: u64| c.has_key(k) <==> c.keys().contains(k),
{
    c.lemma_has_key_iff();
}

/// Inserting distinct fresh keys that all fit appends them in order: no
/// eviction happens while the cache is below capacity.
proof fn lemma_fill_below_capacity(keys: Seq<u64>, cap: nat, ks: Seq<u64>)
    requires
        keys.no_duplicates(),
        ks.no_duplicates(),
        forall|i: int| 0 <= i < ks.len() ==> !keys.contains(#[trigger] ks[i]),
        keys.len() + ks.len() <= cap,
    ensures
        lru_keys_after_inserts(keys, cap, ks) == keys + ks,
        (keys + ks).no_duplicates(),
    decreases ks.len(),
{
    if ks.len() == 0 {
        assert(keys + ks =~= keys);
    } else {
        let k0 = ks[0];
        assert(!keys.contains(k0));
        let keys1 = lru_keys_after_insert(keys, cap, k0);
        assert(keys1 == keys.push(k0));
        assert(keys1.no_duplicates()) by {
            assert forall|p: int, q: int|
                0 <= p < keys1.len() && 0 <= q < keys1.len() && p != q implies keys1[p]
                != keys1[q] by {
                if p < keys.len() && q < keys.len() {
                    assert(keys1[p] == keys[p] && keys1[q] == keys[q]);
                } else if p < keys.len() {
                    assert(keys1[q] == k0);
                    if keys1[p] == k0 {
                        assert(keys.contains(k0));
                    }
                } else {
                    assert(keys1[p] == k0);
                    if keys1[q] == k0 {
                        assert(keys.contains(k0));
                    }
                }
            }
        }
        let rest = ks.drop_first();
        assert forall|i: int| 0 <= i < rest.len() implies !keys1.contains(#[trigger] rest[i]) by {
            assert(rest[i] == ks[i + 1]);
            assert(!keys.contains(ks[i + 1]));
            if keys1.contains(ks[i + 1]) {
                let w = choose|w: int| 0 <= w < keys1.len() && keys1[w] == ks[i + 1];
                if w < keys.len() {
                    assert(keys.contains(ks[i + 1]));
                } else {
                    assert(ks[i + 1] == k0);
                }
            }
        }
        assert(rest.no_duplicates()) by {
            assert forall|p: int, q: int|
                0 <= p < rest.len() && 0 <= q < rest.len() && p != q implies rest[p] != rest[q] by {
                assert(rest[p] == ks[p + 1] && rest[q] == ks[q + 1]);
            }
        }
        lemma_fill_below_capacity(keys1, cap, rest);
        assert(keys.push(k0) + rest =~= keys + ks);
        assert(lru_keys_after_inserts(keys, cap, ks) == lru_keys_after_inserts(keys1, cap, rest));
    }
}

/// Eviction order: inserting `cap + 1` distinct keys in order into an empty
/// cache, with no intervening reads, evicts exactly the first key — the
/// least recently used — and keeps every other key present. The state after
/// each insert is the one its contract (`lru_keys_after_insert`) gives.
pub proof fn lemma_eviction_order(cap: nat, ks: Seq<u64>)
    requires
        1 <= cap,
        ks.len() == cap + 1,
        ks.no_duplicates(),
    ensures
        ({
            let fin = lru_keys_after_inserts(Seq::<u64>::empty(), cap, ks);
            &&& fin == ks.drop_first()
            &&& !fin.contains(ks[0])
            &&& forall|i: int| 1 <= i <= cap ==> fin.contains(#[trigger] ks[i])
        }),
{
    let first = ks.subrange(0, cap as int);
    assert(first.no_duplicates()) by {
        assert forall|p: int, q: int|
            0 <= p < first.len() && 0 <= q < first.len() && p != q implies first[p] != first[q] by {
            assert(first[p] == ks[p] && first[q] == ks[q]);
        }
    }
    lemma_fill_below_capacity(Seq::<u64>::empty(), cap, first);
    assert(Seq::<u64>::empty() + first =~= first);
    lemma_inserts_split(Seq::<u64>::empty(), cap, ks, cap as int);
    assert(ks.subrange(cap as int, ks.len() as int) =~= seq![ks[cap as int]]);
    let last = ks[cap as int];
    assert(!first.contains(last)) by {
        if first.contains(last) {
            let w = choose|w: int| 0 <= w < first.len() && first[w] == last;
            assert(ks[w] == ks[cap as int]);
        }
    }
    let stepped = lru_keys_after_insert(first, cap, last);
    assert(stepped == first.drop_first().push(last));
    assert(lru_keys_after_inserts(first, cap, seq![last]) == lru_keys_after_inserts(
        stepped,
        cap,
        seq![last].drop_first(),
    ));
    assert(seq![last].drop_first().len() == 0);
    let fin = lru_keys_after_inserts(Seq::<u64>::empty(), cap, ks);
    assert(fin == stepped);
    assert(fin =~= ks.drop_first()) by {
        assert forall|i: int| 0 <= i < cap implies fin[i] == ks.drop_first()[i] by {
            if i < cap - 1 {
                assert(fin[i] == first.drop_first()[i]);
                assert(first.drop_first()[i] == first[i + 1]);
                assert(first[i + 1] == ks[i + 1]);
            } else {
                assert(fin[i] == last);
            }
        }
    }
    assert(!fin.contains(ks[0])) by {
        if fin.contains(ks[0]) {
            let w = choose|w: int| 0 <= w < fin.len() && fin[w] == ks[0];
            assert(ks.drop_first()[w] == ks[w + 1]);
            assert(ks[w + 1] == ks[0]);
        }
    }
    assert forall|i: int| 1 <= i <= cap implies fin.contains(#[trigger] ks[i]) by {
        assert(fin[i - 1] == ks.drop_first()[i - 1]);
        assert(ks.drop_first()[i - 1] == ks[i]);
    }
}

/// Running the inserts of `a + b` equals running those of `a`, then those
/// of `b`.
proof fn lemma_inserts_split(keys: Seq<u64>, cap: nat, ks: Seq<u64>, mid: int)
    requires
        0 <= mid <= ks.len(),
    ensures
        lru_keys_after_inserts(keys, cap, ks) == lru_keys_after_inserts(
            lru_keys_after_inserts(keys, cap, ks.subrange(0, mid)),
            cap,
            ks.subrange(mid, ks.len() as int),
        ),
    decreases mid,
{
    if mid == 0 {
        assert(ks.subrange(0, 0).len() == 0);
        assert(ks.subrange(0, ks.len() as int) =~= ks);
    } else {
        let a = ks.subrange(0, mid);
        assert(a[0] == ks[0]);
        let keys1 = lru_keys_after_insert(keys, cap, ks[0]);
        assert(ks.drop_first().subrange(0, mid - 1) =~= a.drop_first());
        assert(ks.drop_first().subrange(mid - 1, ks.drop_first().len() as int) =~= ks.subrange(
            mid,
            ks.len() as int,
        ));
        lemma_inserts_split(keys1, cap, ks.drop_first(), mid - 1);
        assert(lru_keys_after_inserts(keys, cap, ks) == lru_keys_after_inserts(
            keys1,
            cap,
            ks.drop_first(),
        ));
        assert(lru_keys_after_inserts(keys, cap, a) == lru_keys_after_inserts(
            keys1,
            cap,
            a.drop_first(),
        ));
    }
}

/// Recency protection: a key that stands at the most recently used end —
/// where both a query hit and an insert of that key leave it — survives the
/// insertion of up to `capacity - 1` other fresh, distinct keys: it is
/// never the one evicted.
pub proof fn lemma_recency_protects(keys: Seq<u64>, cap: nat, k: u64, ks: Seq<u64>)
    requires
        keys.no_duplicates(),
        1 <= keys.len() <= cap,
        keys.last() == k,
        ks.no_duplicates(),
        forall|i: int| 0 <= i < ks.len() ==> !keys.contains(#[trigger] ks[i]),
        ks.len() + 1 <= cap,
    ensures
        lru_keys_after_inserts(keys, cap, ks).contains(k),
{
    lemma_survives_inserts(keys, cap, k, keys.len() as int - 1, ks);
}

/// The key at position `p` survives any run of fresh distinct inserts that
/// is no longer than `p` plus the remaining headroom: each insert either
/// grows the list (using headroom) or drops only the front entry (moving
/// the key one position forward).
proof fn lemma_survives_inserts(keys: Seq<u64>, cap: nat, k: u64, p: int, ks: Seq<u64>)
    requires
        keys.no_duplicates(),
        0 <= p < keys.len(),
        keys.len() <= cap,
        keys[p] == k,
        ks.no_duplicates(),
        forall|i: int| 0 <= i < ks.len() ==> !keys.contains(#[trigger] ks[i]),
        ks.len() <= p + cap - keys.len(),
    ensures
        lru_keys_after_inserts(keys, cap, ks).contains(k),
    decreases ks.len(),
{
    if ks.len() == 0 {
        assert(lru_keys_after_inserts(keys, cap, ks) == keys);
        assert(keys[p] == k);
        assert(keys.contains(k));
    } else {
        let k0 = ks[0];
        assert(!keys.contains(k0));
        let keys1 = lru_keys_after_insert(keys, cap, k0);
        let rest = ks.drop_first();
        assert(rest.no_duplicates()) by {
            assert forall|u: int, w: int|
                0 <= u < rest.len() && 0 <= w < rest.len() && u != w implies rest[u] != rest[w] by {
                assert(rest[u] == ks[u + 1] && rest[w] == ks[w + 1]);
            }
        }
        if keys.len() < cap {
            assert(keys1 == keys.push(k0));
            assert(keys1.no_duplicates()) by {
                assert forall|u: int, w: int|
                    0 <= u < keys1.len() && 0 <= w < keys1.len() && u != w implies keys1[u]
                    != keys1[w] by {
                    if u < keys.len() && w < keys.len() {
                        assert(keys1[u] == keys[u] && keys1[w] == keys[w]);
                    } else if u < keys.len() {
                        assert(keys1[w] == k0);
                        if keys1[u] == k0 {
                            assert(keys.contains(k0));
                        }
                    } else {
                        assert(keys1[u] == k0);
                        if keys1[w] == k0 {
                            assert(keys.contains(k0));
                        }
                    }
                }
            }
            assert forall|i: int| 0 <= i < rest.len() implies !keys1.contains(
                #[trigger] rest[i],
            ) by {
                assert(rest[i] == ks[i + 1]);
                assert(!keys.contains(ks[i + 1]));
                if keys1.contains(ks[i + 1]) {
                    let w = choose|w: int| 0 <= w < keys1.len() && keys1[w] == ks[i + 1];
                    if w < keys.len() {
                        assert(keys.contains(ks[i + 1]));
                    } else {
                        assert(ks[i + 1] == k0);
                    }
                }
            }
            assert(keys1[p] == k);
            lemma_survives_inserts(keys1, cap, k, p, rest);
        } else {
            assert(keys.len() == cap);
            assert(cap > 0);
            assert(keys1 == keys.drop_first().push(k0));
            assert(ks.len() <= p);
            assert(p >= 1);
            assert(keys1[p - 1] == k) by {
                assert(keys.drop_first()[p - 1] == keys[p]);
            }
            assert(keys1.no_duplicates()) by {
                assert forall|u: int, w: int|
                    0 <= u < keys1.len() && 0 <= w < keys1.len() && u != w implies keys1[u]
                    != keys1[w] by {
                    if u < keys.len() - 1 && w < keys.len() - 1 {
                        assert(keys1[u] == keys[u + 1] && keys1[w] == keys[w + 1]);
                    } else if u < keys.len() - 1 {
                        assert(keys1[u] == keys[u + 1] && keys1[w] == k0);
                        if keys[u + 1] == k0 {
                            assert(keys.contains(k0));
                        }
                    } else {
                        assert(keys1[u] == k0 && keys1[w] == keys[w + 1]);
                        if keys[w + 1] == k0 {
                            assert(keys.contains(k0));
                        }
                    }
                }
            }
            assert forall|i: int| 0 <= i < rest.len() implies !keys1.contains(
                #[trigger] rest[i],
            ) by {
                assert(rest[i] == ks[i + 1]);
                assert(!keys.contains(ks[i + 1]));
                if keys1.contains(ks[i + 1]) {
                    let w = choose|w: int| 0 <= w < keys1.len() && keys1[w] == ks[i + 1];
                    if w < keys.len() - 1 {
                        assert(keys[w + 1] == ks[i + 1]);
                        assert(keys.contains(ks[i + 1]));
                    } else {
                        assert(ks[i + 1] == k0);
                    }
                }
            }
            lemma_survives_inserts(keys1, cap, k, p - 1, rest);
        }
        assert(lru_keys_after_inserts(keys, cap, ks) == lru_keys_after_inserts(keys1, cap, rest));
    }
}

/// Removal idempotence: after a removal the key is gone — a following query
/// misses, and a second removal finds nothing and changes nothing. Key
/// sequences of well-formed caches never repeat a key, which is the premise
/// here.
pub proof fn lemma_removal_idempotent(keys: Seq<u64>, k: u64)
    requires
        keys.no_duplicates(),
    ensures
        !lru_keys_after_remove(keys, k).contains(k),
        lru_keys_after_remove(lru_keys_after_remove(keys, k), k) == lru_keys_after_remove(keys, k),
{
    if keys.contains(k) {
        let i = keys.index_of(k);
        assert(0 <= i < keys.len() && keys[i] == k);
        keys.remove_ensures(i);
        let out = keys.remove(i);
        assert(!out.contains(k)) by {
            if out.contains(k) {
                let w = choose|w: int| 0 <= w < out.len() && out[w] == k;
                if w < i {
                    assert(out[w] == keys[w]);
                    assert(keys[w] != keys[i]);
                } else {
                    assert(out[w] == keys[w + 1]);
                    assert(keys[i] != keys[w + 1]);
                }
            }
        }
    }
}

/// Where the block that stands at position `k` after a removal of the block
/// at position `i` stood before.
pub open spec fn shift_from(k: int, i: int) -> int {
    if k < i {
        k
    } else {
        k + 1
    }
}

/// Where the block that stands at position `k` after a relocation of the
/// block at position `i` to the back stood before, in a list of length `n`.
pub open spec fn perm_from(k: int, i: int, n: int) -> int {
    if k < i {
        k
    } else if k < n - 1 {
        k + 1
    } else {
        i
    }
}

} // verus!
