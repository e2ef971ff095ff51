//! One entry's place in the recency list.
//!
//! Nodes live in an arena (`Vec<LRUNode>`) and refer to their neighbours by
//! slot number. The link toward the least recent end (`next`) and the one
//! toward the most recent end (`prev`) are plain indices, so no node owns
//! another and no reference cycle can form.
use vstd::prelude::*;

verus! {

/// A key and the slots of its neighbours in recency order.
#[derive(Clone, Copy)]
pub struct LRUNode {
    pub key: u64,
    pub next: Option<usize>,
    pub prev: Option<usize>,
}

/// The slot before position `i` of `order`, if any.
pub open spec fn prev_of(order: Seq<usize>, i: int) -> Option<usize> {
    if i <= 0 {
        None
    } else {
        Some(order[i - 1])
    }
}

/// The slot after position `i` of `order`, if any.
pub open spec fn next_of(order: Seq<usize>, i: int) -> Option<usize> {
    if i + 1 >= order.len() {
        None
    } else {
        Some(order[i + 1])
    }
}

/// `order` lists distinct slots of `nodes`, and each listed node's links
/// name exactly its neighbours in `order`.
pub open spec fn linked(nodes: Seq<LRUNode>, order: Seq<usize>) -> bool {
    &&& order.no_duplicates()
    &&& forall|i: int| 0 <= i < order.len() ==> (#[trigger] order[i] as int) < nodes.len()
    &&& forall|i: int|
        0 <= i < order.len() ==> {
            &&& (#[trigger] nodes[order[i] as int]).prev == prev_of(order, i)
            &&& nodes[order[i] as int].next == next_of(order, i)
        }
}

impl LRUNode {
    /// A node for `key` with no neighbours.
    pub fn new(key: u64) -> (r: Self)
        ensures
            r.key == key,
            r.next is None,
            r.prev is None,
    {
        LRUNode { key, next: None, prev: None }
    }

    pub fn get_key(&self) -> (r: u64)
        ensures
            r == self.key,
    {
        self.key
    }

    pub fn set_next(&mut self, next: usize)
        ensures
            *final(self) == (LRUNode { next: Some(next), ..*old(self) }),
    {
        self.next = Some(next);
    }

    /// Drops the forward link and returns what it was.
    pub fn clear_next(&mut self) -> (r: Option<usize>)
        ensures
            r == old(self).next,
            *final(self) == (LRUNode { next: None, ..*old(self) }),
    {
        let next = self.next;
        self.next = None;
        next
    }

    pub fn get_next(&self) -> (r: Option<usize>)
        ensures
            r == self.next,
    {
        self.next
    }

    pub fn set_prev(&mut self, prev: usize)
        ensures
            *final(self) == (LRUNode { prev: Some(prev), ..*old(self) }),
    {
        self.prev = Some(prev);
    }

    /// Drops the backward link and returns what it was.
    pub fn clear_prev(&mut self) -> (r: Option<usize>)
        ensures
            r == old(self).prev,
            *final(self) == (LRUNode { prev: None, ..*old(self) }),
    {
        let prev = self.prev;
        self.prev = None;
        prev
    }

    pub fn get_prev(&self) -> (r: Option<usize>)
        ensures
            r == self.prev,
    {
        self.prev
    }

    /// Takes the node in `slot` out of the list that `order` describes: its
    /// neighbours are linked to each other and the node keeps no links. Which
    /// slot heads or ends the list afterwards is the owner's to record.
    pub fn remove(nodes: &mut Vec<LRUNode>, slot: usize, Ghost(order): Ghost<Seq<usize>>)
        requires
            linked(old(nodes)@, order),
            order.contains(slot),
        ensures
            final(nodes)@.len() == old(nodes)@.len(),
            forall|t: int| 0 <= t < old(nodes)@.len() ==> (#[trigger] final(nodes)@[t]).key == old(nodes)@[t].key,
            linked(final(nodes)@, order.remove(order.index_of(slot))),
            final(nodes)@[slot as int].next is None,
            final(nodes)@[slot as int].prev is None,
    {
        let ghost i = order.index_of(slot);
        let ghost old_nodes = nodes@;
        let node = nodes[slot];
        let prev = node.get_prev();
        let next = node.get_next();
        match prev {
            Some(p) => {
                let mut pn = nodes[p];
                match next {
                    Some(n) => pn.set_next(n),
                    None => {
                        pn.clear_next();
                    },
                }
                nodes.set(p, pn);
            },
            None => {},
        }
        match next {
            Some(n) => {
                let mut nn = nodes[n];
                match prev {
                    Some(p) => nn.set_prev(p),
                    None => {
                        nn.clear_prev();
                    },
                }
                nodes.set(n, nn);
            },
            None => {},
        }
        let mut own = nodes[slot];
        own.clear_next();
        own.clear_prev();
        nodes.set(slot, own);
        proof {
            let o2 = order.remove(i);
            assert forall|j: int| 0 <= j < o2.len() implies {
                &&& (#[trigger] nodes@[o2[j] as int]).prev == prev_of(o2, j)
                &&& nodes@[o2[j] as int].next == next_of(o2, j)
            } by {
                if j < i {
                    assert(o2[j] == order[j]);
                    assert(order[j] != slot);
                } else {
                    assert(o2[j] == order[j + 1]);
                    assert(order[j + 1] != slot);
                }
            }
            assert forall|j: int| 0 <= j < o2.len() implies (#[trigger] o2[j] as int) < nodes@.len() by {
                if j < i {
                    assert(o2[j] == order[j]);
                } else {
                    assert(o2[j] == order[j + 1]);
                }
            }
            assert(o2.no_duplicates()) by {
                assert forall|a: int, b: int| 0 <= a < b < o2.len() implies o2[a] != o2[b] by {
                    let ia = if a < i { a } else { a + 1 };
                    let ib = if b < i { b } else { b + 1 };
                    assert(o2[a] == order[ia]);
                    assert(o2[b] == order[ib]);
                }
            }
        }
    }
}

} // verus!
