//! The request and reply types that a worker owning one cache exchanges with
//! its callers.
use vstd::prelude::*;

verus! {

/// One operation on the cache.
pub enum Message<V> {
    Clear,
    Get(u64),
    Insert(u64, V),
    Remove(u64),
}

/// A request together with the handle on which its single reply is sent.
pub struct MessageWrapper<S, V> {
    pub sender: S,
    pub kind: Message<V>,
}

/// The outcome of one request.
pub enum Response<V> {
    Acknowledged,
    Absent,
    Value(V),
}

} // verus!
