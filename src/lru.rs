//! The bounded cache: an index from key to value and slot, and a recency list
//! of slots, kept in step under every operation.
use std::collections::HashMap;
use vstd::prelude::*;

use crate::laws::model_ok;
use crate::lru_node::{linked, next_of, prev_of, LRUNode};

verus! {

broadcast use vstd::std_specs::hash::group_hash_axioms;

/// `order` with `k` moved to the front; unchanged where `k` is absent.
pub open spec fn touched(order: Seq<u64>, k: u64) -> Seq<u64> {
    if order.contains(k) {
        seq![k] + order.remove_value(k)
    } else {
        order
    }
}

/// Recency order after inserting `k` into a cache of capacity `cap`: a new
/// key goes to the front, and pushes the last key out when the cache is full.
pub open spec fn order_after_insert(order: Seq<u64>, cap: nat, k: u64) -> Seq<u64> {
    if order.contains(k) {
        seq![k] + order.remove_value(k)
    } else if order.len() < cap {
        seq![k] + order
    } else {
        seq![k] + order.drop_last()
    }
}

/// Stored values after inserting `k` with `v` into a cache of capacity `cap`
/// whose recency order is `order`.
pub open spec fn contents_after_insert<V>(
    order: Seq<u64>,
    contents: Map<u64, V>,
    cap: nat,
    k: u64,
    v: V,
) -> Map<u64, V> {
    if !order.contains(k) && order.len() >= cap && order.len() > 0 {
        contents.remove(order.last()).insert(k, v)
    } else {
        contents.insert(k, v)
    }
}

/// In a sequence without repeats, removing the value at `i` removes position `i`.
pub proof fn lemma_remove_value_at(s: Seq<u64>, i: int)
    requires
        s.no_duplicates(),
        0 <= i < s.len(),
    ensures
        s.remove_value(s[i]) == s.remove(i),
        s.contains(s[i]),
{
    s.index_of_first_ensures(s[i]);
}

/// A cache of at most `capacity` entries that evicts the least recently used.
pub struct LRU<V> {
    first: Option<usize>,
    last: Option<usize>,
    map: HashMap<u64, (V, usize)>,
    nodes: Vec<LRUNode>,
    free: Vec<usize>,
    capacity: usize,
    count: usize,
    order: Ghost<Seq<usize>>,
}

impl<V> LRU<V> {
    /// The keys from most to least recently used.
    pub closed spec fn recency(&self) -> Seq<u64> {
        self.order@.map_values(|s: usize| self.nodes@[s as int].key)
    }

    /// The stored value of each key.
    pub closed spec fn contents(&self) -> Map<u64, V> {
        self.map@.map_values(|p: (V, usize)| p.0)
    }

    /// The bound fixed at construction.
    pub closed spec fn cap(&self) -> nat {
        self.capacity as nat
    }

    /// The list part of the invariant: `order` is the list from `first` to `last`.
    closed spec fn list_ok(&self) -> bool {
        &&& linked(self.nodes@, self.order@)
        &&& self.first == (if self.order@.len() == 0 { None } else { Some(self.order@[0]) })
        &&& self.last == (if self.order@.len() == 0 {
            None
        } else {
            Some(self.order@.last())
        })
    }

    closed spec fn key_at(&self, s: usize) -> u64 {
        self.nodes@[s as int].key
    }

    /// The whole invariant: the list, the index and the free slots agree.
    pub closed spec fn wf(&self) -> bool {
        &&& self.list_ok()
        &&& self.capacity > 0
        &&& self.count == self.order@.len()
        &&& self.count <= self.capacity
        &&& self.nodes@.len() <= self.capacity
        &&& self.free@.no_duplicates()
        &&& self.free@.len() + self.order@.len() == self.nodes@.len()
        &&& forall|i: int|
            0 <= i < self.free@.len() ==> (#[trigger] self.free@[i] as int) < self.nodes@.len()
                && !self.order@.contains(self.free@[i])
        &&& forall|k: u64| #[trigger]
            self.map@.contains_key(k) ==> self.order@.contains(self.map@[k].1) && self.key_at(
                self.map@[k].1,
            ) == k
        &&& forall|i: int|
            0 <= i < self.order@.len() ==> self.map@.contains_key(#[trigger] self.key_at(self.order@[i]))
                && self.map@[self.key_at(self.order@[i])].1 == self.order@[i]
    }

    proof fn lemma_recency(&self)
        requires
            self.wf(),
        ensures
            self.recency().len() == self.order@.len(),
            self.recency().no_duplicates(),
            forall|i: int| 0 <= i < self.order@.len() ==> #[trigger] self.recency()[i] == self.key_at(self.order@[i]),
            forall|k: u64| self.recency().contains(k) <==> #[trigger] self.map@.contains_key(k),
            self.contents().dom() == self.map@.dom(),
    {
        let r = self.recency();
        assert forall|a: int, b: int| 0 <= a < b < r.len() implies r[a] != r[b] by {
            if r[a] == r[b] {
                assert(self.map@[self.key_at(self.order@[a])].1 == self.order@[a]);
                assert(self.map@[self.key_at(self.order@[b])].1 == self.order@[b]);
            }
        }
        assert forall|k: u64| r.contains(k) <==> #[trigger] self.map@.contains_key(k) by {
            if self.map@.contains_key(k) {
                let j = choose|j: int| 0 <= j < self.order@.len() && self.order@[j] == self.map@[k].1;
                assert(r[j] == k);
            }
            if r.contains(k) {
                let j = choose|j: int| 0 <= j < r.len() && r[j] == k;
                assert(self.map@.contains_key(self.key_at(self.order@[j])));
            }
        }
        assert(self.contents().dom() =~= self.map@.dom());
    }

    /// Every cache satisfies the model invariant that the laws assume.
    pub proof fn lemma_model_ok(&self)
        requires
            self.wf(),
        ensures
            model_ok(self.recency(), self.contents(), self.cap()),
            self.cap() > 0,
    {
        self.lemma_recency();
    }

    /// A cache that holds nothing; `None` where `capacity` is zero.
    pub fn new(capacity: usize) -> (r: Option<Self>)
        ensures
            capacity == 0 <==> r is None,
            r matches Some(c) ==> {
                &&& c.wf()
                &&& c.cap() == capacity
                &&& c.recency() == Seq::<u64>::empty()
                &&& c.contents() == Map::<u64, V>::empty()
            },
    {
        if capacity == 0 {
            None
        } else {
            let c = LRU {
                first: None,
                last: None,
                map: HashMap::new(),
                nodes: Vec::new(),
                free: Vec::new(),
                capacity,
                count: 0,
                order: Ghost(Seq::empty()),
            };
            assert(c.recency() =~= Seq::<u64>::empty());
            assert(c.contents() =~= Map::<u64, V>::empty());
            Some(c)
        }
    }

    /// Unlinks `slot` from the list and records the new ends.
    fn unlink(&mut self, slot: usize)
        requires
            old(self).list_ok(),
            old(self).order@.contains(slot),
        ensures
            final(self).list_ok(),
            final(self).order@ == old(self).order@.remove(old(self).order@.index_of(slot)),
            final(self).nodes@.len() == old(self).nodes@.len(),
            forall|t: usize| (t as int) < old(self).nodes@.len() ==> #[trigger] final(self).key_at(t) == old(self).key_at(t),
            final(self).map == old(self).map,
            final(self).free == old(self).free,
            final(self).capacity == old(self).capacity,
            final(self).count == old(self).count,
    {
        let ghost order = self.order@;
        let ghost i = order.index_of(slot);
        let ghost old_nodes = self.nodes@;
        let prev = self.nodes[slot].get_prev();
        let next = self.nodes[slot].get_next();
        LRUNode::remove(&mut self.nodes, slot, Ghost(self.order@));
        if prev.is_none() {
            self.first = next;
        }
        if next.is_none() {
            self.last = prev;
        }
        self.order = Ghost(order.remove(i));
        proof {
            assert forall|t: usize| (t as int) < old_nodes.len() implies #[trigger] self.key_at(t) == old_nodes[t as int].key by {
                assert(self.nodes@[t as int].key == old_nodes[t as int].key);
            }
        }
    }

    /// Links the unlisted `slot` in as the most recent entry.
    fn attach_front(&mut self, slot: usize)
        requires
            old(self).list_ok(),
            (slot as int) < old(self).nodes@.len(),
            !old(self).order@.contains(slot),
        ensures
            final(self).list_ok(),
            final(self).order@ == seq![slot] + old(self).order@,
            final(self).nodes@.len() == old(self).nodes@.len(),
            forall|t: usize| (t as int) < old(self).nodes@.len() ==> #[trigger] final(self).key_at(t) == old(self).key_at(t),
            final(self).map == old(self).map,
            final(self).free == old(self).free,
            final(self).capacity == old(self).capacity,
            final(self).count == old(self).count,
    {
        let ghost order = self.order@;
        let ghost old_nodes = self.nodes@;
        let mut node = self.nodes[slot];
        node.clear_prev();
        match self.first {
            Some(f) => {
                node.set_next(f);
                let mut head = self.nodes[f];
                head.set_prev(slot);
                self.nodes.set(f, head);
            },
            None => {
                node.clear_next();
                self.last = Some(slot);
            },
        }
        self.nodes.set(slot, node);
        self.first = Some(slot);
        self.order = Ghost(seq![slot] + order);
        proof {
            let o2 = self.order@;
            assert forall|j: int| 0 <= j < o2.len() implies {
                &&& (#[trigger] self.nodes@[o2[j] as int]).prev == prev_of(o2, j)
                &&& self.nodes@[o2[j] as int].next == next_of(o2, j)
            } by {
                if j > 0 {
                    assert(o2[j] == order[j - 1]);
                    assert(order[j - 1] != slot);
                }
            }
            assert forall|j: int| 0 <= j < o2.len() implies (#[trigger] o2[j] as int) < self.nodes@.len() by {
                if j > 0 {
                    assert(o2[j] == order[j - 1]);
                }
            }
            assert(o2.no_duplicates()) by {
                assert forall|a: int, b: int| 0 <= a < b < o2.len() implies o2[a] != o2[b] by {
                    assert(o2[b] == order[b - 1]);
                    if a > 0 {
                        assert(o2[a] == order[a - 1]);
                    }
                }
            }
            assert forall|t: usize| (t as int) < old_nodes.len() implies #[trigger] self.key_at(t) == old_nodes[t as int].key by {
                assert(self.nodes@[t as int].key == old_nodes[t as int].key);
            }
        }
    }

    /// Moves the listed `slot` to the front of the list.
    fn promote(&mut self, slot: usize)
        requires
            old(self).wf(),
            old(self).order@.contains(slot),
        ensures
            final(self).wf(),
            final(self).recency() == touched(old(self).recency(), old(self).key_at(slot)),
            final(self).map == old(self).map,
            final(self).capacity == old(self).capacity,
    {
        let ghost old_self = *self;
        let ghost order = self.order@;
        let ghost i = order.index_of(slot);
        proof {
            old_self.lemma_recency();
        }
        self.unlink(slot);
        proof {
            assert(!self.order@.contains(slot)) by {
                if self.order@.contains(slot) {
                    let j = choose|j: int| 0 <= j < self.order@.len() && self.order@[j] == slot;
                    if j < i {
                        assert(order[j] == slot);
                    } else {
                        assert(order[j + 1] == slot);
                    }
                }
            }
        }
        let ghost mid = *self;
        self.attach_front(slot);
        proof {
            let o2 = self.order@;
            assert forall|t: usize| (t as int) < self.nodes@.len() implies #[trigger] self.key_at(t) == old_self.key_at(t) by {
                assert(self.key_at(t) == mid.key_at(t));
                assert(mid.key_at(t) == old_self.key_at(t));
            }
            let k = old_self.key_at(slot);
            // the same slots are listed, in another order
            assert forall|x: usize| #[trigger] o2.contains(x) <==> order.contains(x) by {
                if order.contains(x) {
                    let j = choose|j: int| 0 <= j < order.len() && order[j] == x;
                    if j < i {
                        assert(o2[j + 1] == x);
                    } else if j > i {
                        assert(o2[j] == x);
                    }
                }
                if o2.contains(x) {
                    let j = choose|j: int| 0 <= j < o2.len() && o2[j] == x;
                    if j > 0 && j - 1 < i {
                        assert(order[j - 1] == x);
                    } else if j > 0 {
                        assert(order[j] == x);
                    }
                }
            }
            assert forall|x: int| 0 <= x < self.free@.len() implies !o2.contains(#[trigger] self.free@[x]) by {
                assert(!order.contains(self.free@[x]));
            }
            assert forall|j: int| 0 <= j < o2.len() implies self.map@.contains_key(#[trigger] self.key_at(o2[j]))
                && self.map@[self.key_at(o2[j])].1 == o2[j] by {
                assert(order.contains(o2[j]));
                let jj = choose|jj: int| 0 <= jj < order.len() && order[jj] == o2[j];
                assert(self.key_at(o2[j]) == old_self.key_at(order[jj]));
            }
            let r = old_self.recency();
            lemma_remove_value_at(r, i);
            assert forall|j: int| 0 <= j < o2.len() implies #[trigger] self.recency()[j] == (seq![k] + r.remove(i))[j] by {
                assert(self.recency()[j] == self.key_at(o2[j]));
                assert(self.key_at(o2[j]) == old_self.key_at(o2[j]));
                if j == 0 {
                } else if j - 1 < i {
                    assert(o2[j] == order[j - 1]);
                    assert(r[j - 1] == old_self.key_at(order[j - 1]));
                } else {
                    assert(o2[j] == order[j]);
                    assert(r[j] == old_self.key_at(order[j]));
                }
            }
            assert(self.recency() =~= seq![k] + r.remove(i));
        }
    }

    /// The value of `key`, which becomes the most recently used; `None`
    /// where it is absent, and then nothing changes.
    pub fn get(&mut self, key: &u64) -> (r: Option<&V>)
        requires
            old(self).wf(),
        ensures
            final(self).wf(),
            final(self).cap() == old(self).cap(),
            final(self).contents() == old(self).contents(),
            final(self).recency() == touched(old(self).recency(), *key),
            old(self).contents().contains_key(*key) <==> r is Some,
            r matches Some(v) ==> *v == old(self).contents()[*key],
    {
        proof {
            self.lemma_recency();
        }
        let slot = match self.map.get(key) {
            Some(entry) => entry.1,
            None => {
                return None;
            },
        };
        let ghost old_self = *self;
        self.promote(slot);
        match self.map.get(key) {
            Some(entry) => Some(&entry.0),
            None => None,
        }
    }

    /// Takes `key` out and returns its value; `None` where it is absent, and
    /// then nothing changes. The other keys keep their order.
    pub fn remove(&mut self, key: &u64) -> (r: Option<V>)
        requires
            old(self).wf(),
        ensures
            final(self).wf(),
            final(self).cap() == old(self).cap(),
            final(self).recency() == old(self).recency().remove_value(*key),
            final(self).contents() == old(self).contents().remove(*key),
            old(self).contents().contains_key(*key) <==> r is Some,
            r matches Some(v) ==> v == old(self).contents()[*key],
    {
        proof {
            self.lemma_recency();
        }
        let ghost old_self = *self;
        let ghost order = self.order@;
        match self.map.remove(key) {
            Some(entry) => {
                let (value, slot) = entry;
                let ghost i = order.index_of(slot);
                self.unlink(slot);
                let ghost mid = *self;
                self.free.push(slot);
                self.count = self.count - 1;
                proof {
                    let o2 = self.order@;
                    assert(old_self.map@[*key] == (value, slot));
                    assert(0 <= i < order.len() && order[i] == slot);
                    assert forall|j: int| 0 <= j < o2.len() implies #[trigger] o2[j] == (if j < i { order[j] } else { order[j + 1] }) && o2[j] != slot by {
                    }
                    assert forall|x: usize| #[trigger] o2.contains(x) implies order.contains(x) && x != slot by {
                        {
                            let j = choose|j: int| 0 <= j < o2.len() && o2[j] == x;
                            if j < i {
                                assert(order[j] == x);
                            } else {
                                assert(order[j + 1] == x);
                            }
                        }
                    }
                    assert forall|t: usize| (t as int) < self.nodes@.len() implies #[trigger] self.key_at(t) == old_self.key_at(t) by {
                        assert(mid.key_at(t) == old_self.key_at(t));
                    }
                    assert(!old_self.free@.contains(slot));
                    assert(self.free@.no_duplicates()) by {
                        assert forall|a: int, b: int| 0 <= a < b < self.free@.len() implies self.free@[a] != self.free@[b] by {
                            if b == self.free@.len() - 1 {
                                assert(old_self.free@.contains(self.free@[a]));
                            }
                        }
                    }
                    assert forall|x: int| 0 <= x < self.free@.len() implies (#[trigger] self.free@[x] as int) < self.nodes@.len()
                        && !o2.contains(self.free@[x]) by {
                        if x < old_self.free@.len() {
                            assert(!order.contains(old_self.free@[x]));
                        }
                    }
                    assert forall|k: u64| #[trigger] self.map@.contains_key(k) implies o2.contains(self.map@[k].1) && self.key_at(self.map@[k].1) == k by {
                        let s2 = old_self.map@[k].1;
                        assert(order.contains(s2));
                        let j = choose|j: int| 0 <= j < order.len() && order[j] == s2;
                        if j < i {
                            assert(o2[j] == s2);
                        } else {
                            assert(j != i);
                            assert(o2[j - 1] == s2);
                        }
                    }
                    assert forall|j: int| 0 <= j < o2.len() implies self.map@.contains_key(#[trigger] self.key_at(o2[j]))
                        && self.map@[self.key_at(o2[j])].1 == o2[j] by {
                        let jj = if j < i { j } else { j + 1 };
                        assert(o2[j] == order[jj]);
                        assert(old_self.map@[old_self.key_at(order[jj])].1 == order[jj]);
                    }
                    let r = old_self.recency();
                    lemma_remove_value_at(r, i);
                    assert forall|j: int| 0 <= j < o2.len() implies #[trigger] self.recency()[j] == r.remove(i)[j] by {
                        let jj = if j < i { j } else { j + 1 };
                        assert(o2[j] == order[jj]);
                        assert(self.recency()[j] == self.key_at(o2[j]));
                        assert(self.key_at(o2[j]) == old_self.key_at(o2[j]));
                        assert(r[jj] == old_self.key_at(order[jj]));
                    }
                    assert(self.recency() =~= r.remove(i));
                    assert(self.list_ok());
                    assert(self.count == o2.len());
                    assert(self.free@.len() + o2.len() == self.nodes@.len());
                    assert(self.wf());
                    assert(self.contents() =~= old_self.contents().remove(*key));
                }
                Some(value)
            },
            None => {
                proof {
                    assert(self.map@ == old_self.map@.remove(*key));
                    assert(self.map@ =~= old_self.map@);
                    assert forall|j: int| 0 <= j < order.len() implies self.map@.contains_key(#[trigger] self.key_at(order[j]))
                        && self.map@[self.key_at(order[j])].1 == order[j] by {
                        assert(old_self.key_at(order[j]) == self.key_at(order[j]));
                    }
                    assert(self.wf());
                    assert(old_self.recency().remove_value(*key) == old_self.recency()) by {
                        old_self.recency().index_of_first_ensures(*key);
                    }
                    assert(self.contents() =~= old_self.contents().remove(*key));
                }
                None
            },
        }
    }

    /// Adds an absent `key` as the most recent entry, where there is room.
    fn insert_fresh(&mut self, key: u64, value: V)
        requires
            old(self).wf(),
            !old(self).contents().contains_key(key),
            old(self).recency().len() < old(self).cap(),
        ensures
            final(self).wf(),
            final(self).cap() == old(self).cap(),
            final(self).recency() == seq![key] + old(self).recency(),
            final(self).contents() == old(self).contents().insert(key, value),
    {
        proof {
            self.lemma_recency();
        }
        let ghost old_self = *self;
        let ghost order = self.order@;
        let slot = match self.free.pop() {
            Some(s) => {
                self.nodes.set(s, LRUNode::new(key));
                s
            },
            None => {
                let s = self.nodes.len();
                self.nodes.push(LRUNode::new(key));
                s
            },
        };
        proof {
            assert(!order.contains(slot)) by {
                if old_self.free@.len() > 0 {
                    assert(slot == old_self.free@[old_self.free@.len() - 1]);
                } else if order.contains(slot) {
                    let j = choose|j: int| 0 <= j < order.len() && order[j] == slot;
                    assert(order[j] < old_self.nodes@.len());
                }
            }
            assert(linked(self.nodes@, order)) by {
                assert forall|j: int| 0 <= j < order.len() implies (#[trigger] self.nodes@[order[j] as int]) == old_self.nodes@[order[j] as int] by {
                    assert(order[j] != slot);
                }
            }
        }
        let ghost mid = *self;
        self.attach_front(slot);
        let ghost after = *self;
        self.map.insert(key, (value, slot));
        self.count = self.count + 1;
        proof {
            let o2 = self.order@;
            assert(self.nodes@ == after.nodes@);
            assert forall|t: usize| (t as int) < old_self.nodes@.len() && t != slot implies #[trigger] self.key_at(t) == old_self.key_at(t) by {
                assert(after.key_at(t) == mid.key_at(t));
            }
            assert(self.key_at(slot) == key) by {
                assert(after.key_at(slot) == mid.key_at(slot));
            }
            assert(!old_self.map@.contains_key(key));
            assert forall|x: int| 0 <= x < self.free@.len() implies (#[trigger] self.free@[x] as int) < self.nodes@.len()
                && !o2.contains(self.free@[x]) by {
                assert(old_self.free@[x] == self.free@[x]);
                assert(!order.contains(self.free@[x]));
                if old_self.free@.len() > 0 {
                    assert(self.free@[x] != old_self.free@[old_self.free@.len() - 1]);
                }
                if o2.contains(self.free@[x]) {
                    let j = choose|j: int| 0 <= j < o2.len() && o2[j] == self.free@[x];
                    if j > 0 {
                        assert(order[j - 1] == self.free@[x]);
                    }
                }
            }
            assert(self.free@.no_duplicates()) by {
                assert forall|a: int, b: int| 0 <= a < b < self.free@.len() implies self.free@[a] != self.free@[b] by {
                    assert(old_self.free@[a] == self.free@[a]);
                    assert(old_self.free@[b] == self.free@[b]);
                }
            }
            assert forall|k: u64| #[trigger] self.map@.contains_key(k) implies o2.contains(self.map@[k].1) && self.key_at(self.map@[k].1) == k by {
                if k == key {
                    assert(o2[0] == slot);
                } else {
                    let s2 = old_self.map@[k].1;
                    assert(order.contains(s2));
                    let j = choose|j: int| 0 <= j < order.len() && order[j] == s2;
                    assert(o2[j + 1] == s2);
                    assert(s2 < old_self.nodes@.len());
                }
            }
            assert forall|j: int| 0 <= j < o2.len() implies self.map@.contains_key(#[trigger] self.key_at(o2[j]))
                && self.map@[self.key_at(o2[j])].1 == o2[j] by {
                if j > 0 {
                    assert(o2[j] == order[j - 1]);
                    assert(order[j - 1] < old_self.nodes@.len());
                    assert(self.key_at(o2[j]) == old_self.key_at(order[j - 1]));
                    assert(old_self.map@.contains_key(old_self.key_at(order[j - 1])));
                }
            }
            let r = old_self.recency();
            assert forall|j: int| 0 <= j < o2.len() implies #[trigger] self.recency()[j] == (seq![key] + r)[j] by {
                assert(self.recency()[j] == self.key_at(o2[j]));
                if j > 0 {
                    assert(o2[j] == order[j - 1]);
                    assert(order[j - 1] < old_self.nodes@.len());
                    assert(r[j - 1] == old_self.key_at(order[j - 1]));
                }
            }
            assert(self.recency() =~= seq![key] + r);
            assert(self.contents() =~= old_self.contents().insert(key, value));
        }
    }

    /// Stores `value` under `key` and makes `key` the most recently used. A
    /// new key in a full cache first pushes out the least recently used one.
    pub fn insert(&mut self, key: u64, value: V)
        requires
            old(self).wf(),
        ensures
            final(self).wf(),
            final(self).cap() == old(self).cap(),
            final(self).recency() == order_after_insert(old(self).recency(), old(self).cap(), key),
            final(self).contents() == contents_after_insert(
                old(self).recency(),
                old(self).contents(),
                old(self).cap(),
                key,
                value,
            ),
    {
        proof {
            self.lemma_recency();
        }
        let ghost old_self = *self;
        let found = match self.map.get(&key) {
            Some(entry) => Some(entry.1),
            None => None,
        };
        match found {
            Some(slot) => {
                self.promote(slot);
                let ghost mid = *self;
                self.map.insert(key, (value, slot));
                proof {
                    assert(self.map@ =~= mid.map@.insert(key, (value, slot)));
                    assert(mid.key_at(slot) == key);
                    assert forall|j: int| 0 <= j < self.order@.len() implies self.map@.contains_key(#[trigger] self.key_at(self.order@[j]))
                        && self.map@[self.key_at(self.order@[j])].1 == self.order@[j] by {
                        assert(mid.key_at(self.order@[j]) == self.key_at(self.order@[j]));
                    }
                    assert(self.contents() =~= old_self.contents().insert(key, value));
                }
            },
            None => {
                if self.count < self.capacity {
                    self.insert_fresh(key, value);
                } else {
                    let tail = self.last.unwrap();
                    let old_key = self.nodes[tail].get_key();
                    proof {
                        let r = old_self.recency();
                        assert(r.last() == old_key);
                        lemma_remove_value_at(r, r.len() - 1);
                        assert(r.remove(r.len() - 1) =~= r.drop_last());
                    }
                    self.remove(&old_key);
                    proof {
                        self.lemma_recency();
                    }
                    self.insert_fresh(key, value);
                }
            },
        }
    }

    /// Empties the cache; the capacity stays.
    pub fn clear(&mut self)
        requires
            old(self).wf(),
        ensures
            final(self).wf(),
            final(self).cap() == old(self).cap(),
            final(self).recency() == Seq::<u64>::empty(),
            final(self).contents() == Map::<u64, V>::empty(),
    {
        self.first = None;
        self.last = None;
        self.map.clear();
        self.nodes.clear();
        self.free.clear();
        self.count = 0;
        self.order = Ghost(Seq::empty());
        proof {
            assert(self.recency() =~= Seq::<u64>::empty());
            assert(self.contents() =~= Map::<u64, V>::empty());
        }
    }

    /// The number of stored entries.
    pub fn len(&self) -> (r: usize)
        requires
            self.wf(),
        ensures
            r == self.recency().len(),
            r == self.contents().len(),
    {
        proof {
            self.lemma_recency();
            self.recency().unique_seq_to_set();
            assert(self.recency().to_set() =~= self.contents().dom());
        }
        self.count
    }

    /// The bound fixed at construction.
    pub fn capacity(&self) -> (r: usize)
        ensures
            r == self.cap(),
    {
        self.capacity
    }

    /// The keys from most to least recently used, read by walking the list
    /// from its head.
    pub fn keys(&self) -> (r: Vec<u64>)
        requires
            self.wf(),
        ensures
            r@ == self.recency(),
    {
        let ghost order = self.order@;
        let mut out: Vec<u64> = Vec::new();
        let mut cur = self.first;
        let mut j: usize = 0;
        while j < self.count
            invariant
                self.wf(),
                order == self.order@,
                j <= order.len(),
                cur == (if j < order.len() { Some(order[j as int]) } else { None::<usize> }),
                out@ == self.recency().take(j as int),
            decreases order.len() - j,
        {
            let s = cur.unwrap();
            let node = self.nodes[s];
            out.push(node.get_key());
            cur = node.get_next();
            proof {
                assert(out@ =~= self.recency().take(j + 1));
            }
            j = j + 1;
        }
        proof {
            assert(self.recency().take(j as int) =~= self.recency());
        }
        out
    }
}

} // verus!
