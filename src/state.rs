//! The worker's side of the protocol: one request in, one cache operation,
//! one reply out.
use vstd::prelude::*;

use crate::lru::{contents_after_insert, order_after_insert, touched, LRU};
use crate::message::{Message, Response};

verus! {

/// Recency order after the cache of capacity `cap` serves `m`.
pub open spec fn order_after<V>(order: Seq<u64>, cap: nat, m: Message<V>) -> Seq<u64> {
    match m {
        Message::Clear => Seq::empty(),
        Message::Get(k) => touched(order, k),
        Message::Insert(k, v) => order_after_insert(order, cap, k),
        Message::Remove(k) => order.remove_value(k),
    }
}

/// Stored values after the cache of capacity `cap` serves `m`.
pub open spec fn contents_after<V>(
    order: Seq<u64>,
    contents: Map<u64, V>,
    cap: nat,
    m: Message<V>,
) -> Map<u64, V> {
    match m {
        Message::Clear => Map::empty(),
        Message::Get(k) => contents,
        Message::Insert(k, v) => contents_after_insert(order, contents, cap, k, v),
        Message::Remove(k) => contents.remove(k),
    }
}

/// The reply to `m` from a cache holding `contents`.
pub open spec fn reply_to<V>(contents: Map<u64, V>, m: Message<V>) -> Response<V> {
    match m {
        Message::Clear => Response::Acknowledged,
        Message::Insert(k, v) => Response::Acknowledged,
        Message::Get(k) | Message::Remove(k) => if contents.contains_key(k) {
            Response::Value(contents[k])
        } else {
            Response::Absent
        },
    }
}

/// A cache owned by one worker, which serves requests one at a time.
pub struct State<V> {
    lru: LRU<V>,
}

impl<V> State<V> {
    /// The cache that the worker owns.
    pub closed spec fn cache(&self) -> LRU<V> {
        self.lru
    }

    pub fn new(lru: LRU<V>) -> (r: Self)
        ensures
            r.cache() == lru,
    {
        State { lru }
    }
}

impl<V: Copy> State<V> {
    /// Serves one request on the cache and gives the reply for it: exactly
    /// what the direct operation does and returns.
    pub fn handle(&mut self, kind: Message<V>) -> (r: Response<V>)
        requires
            old(self).cache().wf(),
        ensures
            final(self).cache().wf(),
            final(self).cache().cap() == old(self).cache().cap(),
            final(self).cache().recency() == order_after(
                old(self).cache().recency(),
                old(self).cache().cap(),
                kind,
            ),
            final(self).cache().contents() == contents_after(
                old(self).cache().recency(),
                old(self).cache().contents(),
                old(self).cache().cap(),
                kind,
            ),
            r == reply_to(old(self).cache().contents(), kind),
    {
        match kind {
            Message::Clear => {
                self.lru.clear();
                Response::Acknowledged
            },
            Message::Get(key) => match self.lru.get(&key) {
                Some(v) => Response::Value(*v),
                None => Response::Absent,
            },
            Message::Insert(key, value) => {
                self.lru.insert(key, value);
                Response::Acknowledged
            },
            Message::Remove(key) => match self.lru.remove(&key) {
                Some(v) => Response::Value(v),
                None => Response::Absent,
            },
        }
    }
}

} // verus!
