//! Properties of the cache stated over its model: the recency order (most
//! recent first) and the map of stored values that the operations' contracts
//! speak of.
use vstd::prelude::*;
use vstd::seq_lib::seq_to_set_is_finite;
use vstd::set_lib::lemma_len_subset;

use crate::lru::{contents_after_insert, lemma_remove_value_at, order_after_insert, touched};
use crate::message::{Message, Response};
use crate::state::{contents_after, order_after, reply_to};

verus! {

/// What every reachable cache state satisfies: no key listed twice, at most
/// `cap` keys, and the listed keys are exactly the stored ones.
pub open spec fn model_ok<V>(order: Seq<u64>, contents: Map<u64, V>, cap: nat) -> bool {
    &&& order.no_duplicates()
    &&& order.len() <= cap
    &&& forall|k: u64| order.contains(k) <==> #[trigger] contents.contains_key(k)
}

/// The keys of a run of inserts, in the order they were inserted.
pub open spec fn keys_of<V>(ops: Seq<(u64, V)>) -> Seq<u64> {
    ops.map_values(|p: (u64, V)| p.0)
}

/// Recency order and contents after inserting each pair of `ops` in turn.
pub open spec fn after_inserts<V>(
    order: Seq<u64>,
    contents: Map<u64, V>,
    cap: nat,
    ops: Seq<(u64, V)>,
) -> (Seq<u64>, Map<u64, V>)
    decreases ops.len(),
{
    if ops.len() == 0 {
        (order, contents)
    } else {
        let prev = after_inserts(order, contents, cap, ops.drop_last());
        let (k, v) = ops.last();
        (
            order_after_insert(prev.0, cap, k),
            contents_after_insert(prev.0, prev.1, cap, k, v),
        )
    }
}

proof fn lemma_remove_value_facts(s: Seq<u64>, k: u64)
    requires
        s.no_duplicates(),
    ensures
        s.remove_value(k).no_duplicates(),
        s.contains(k) ==> s.remove_value(k).len() == s.len() - 1,
        !s.contains(k) ==> s.remove_value(k) == s,
        forall|x: u64| #[trigger] s.remove_value(k).contains(x) <==> s.contains(x) && x != k,
{
    s.index_of_first_ensures(k);
    if s.contains(k) {
        let i = choose|i: int| 0 <= i < s.len() && s[i] == k;
        lemma_remove_value_at(s, i);
        let r = s.remove(i);
        assert forall|j: int| 0 <= j < r.len() implies #[trigger] r[j] == (if j < i { s[j] } else { s[j + 1] }) by {}
        assert forall|x: u64| #[trigger] r.contains(x) <==> s.contains(x) && x != k by {
            if s.contains(x) && x != k {
                let j = choose|j: int| 0 <= j < s.len() && s[j] == x;
                if j < i {
                    assert(r[j] == x);
                } else {
                    assert(r[j - 1] == x);
                }
            }
        }
    }
}

/// Inserting keeps the model well formed, stores the value, and grows the
/// cache by one exactly when the key is new and there is room.
pub proof fn lemma_insert_step<V>(order: Seq<u64>, contents: Map<u64, V>, cap: nat, k: u64, v: V)
    requires
        model_ok(order, contents, cap),
        cap > 0,
    ensures
        model_ok(order_after_insert(order, cap, k), contents_after_insert(order, contents, cap, k, v), cap),
        order_after_insert(order, cap, k)[0] == k,
        contents_after_insert(order, contents, cap, k, v).contains_key(k),
        contents_after_insert(order, contents, cap, k, v)[k] == v,
        order.contains(k) || order.len() < cap ==> contents_after_insert(order, contents, cap, k, v)
            == contents.insert(k, v),
        order.contains(k) ==> order_after_insert(order, cap, k).len() == order.len(),
        !order.contains(k) && order.len() < cap ==> order_after_insert(order, cap, k).len() == order.len() + 1,
{
    let o2 = order_after_insert(order, cap, k);
    let c2 = contents_after_insert(order, contents, cap, k, v);
    lemma_remove_value_facts(order, k);
    if order.contains(k) {
        let rest = order.remove_value(k);
        assert forall|x: u64| #[trigger] o2.contains(x) <==> c2.contains_key(x) by {
            if o2.contains(x) && x != k {
                let j = choose|j: int| 0 <= j < o2.len() && o2[j] == x;
                assert(rest[j - 1] == x);
                assert(rest.contains(x));
                assert(order.contains(x));
            }
            if c2.contains_key(x) && x != k {
                assert(rest.contains(x));
                let j = choose|j: int| 0 <= j < rest.len() && rest[j] == x;
                assert(o2[j + 1] == x);
            }
            if x == k {
                assert(o2[0] == k);
            }
        }
        assert(o2.no_duplicates()) by {
            assert forall|a: int, b: int| 0 <= a < b < o2.len() implies o2[a] != o2[b] by {
                assert(o2[b] == rest[b - 1]);
                assert(rest.contains(rest[b - 1]));
                if a > 0 {
                    assert(o2[a] == rest[a - 1]);
                }
            }
        }
    } else {
        let rest = if order.len() < cap { order } else { order.drop_last() };
        assert(o2 == seq![k] + rest);
        assert forall|x: u64| #[trigger] rest.contains(x) implies order.contains(x) by {
            {
                let j = choose|j: int| 0 <= j < rest.len() && rest[j] == x;
                assert(order[j] == x);
            }
        }
        if order.len() >= cap {
            assert(order.len() > 0);
            assert forall|x: u64| #[trigger] order.contains(x) && x != order.last() implies rest.contains(x) by {
                {
                    let j = choose|j: int| 0 <= j < order.len() && order[j] == x;
                    assert(j != order.len() - 1);
                    assert(rest[j] == x);
                }
            }
            assert(!rest.contains(order.last())) by {
                if rest.contains(order.last()) {
                    let j = choose|j: int| 0 <= j < rest.len() && rest[j] == order.last();
                    assert(order[j] == order[order.len() - 1]);
                }
            }
        }
        assert forall|x: u64| #[trigger] o2.contains(x) <==> c2.contains_key(x) by {
            if o2.contains(x) && x != k {
                let j = choose|j: int| 0 <= j < o2.len() && o2[j] == x;
                assert(rest[j - 1] == x);
                assert(rest.contains(x));
                assert(order.contains(x));
            }
            if c2.contains_key(x) && x != k {
                assert(rest.contains(x));
                let j = choose|j: int| 0 <= j < rest.len() && rest[j] == x;
                assert(o2[j + 1] == x);
            }
            if x == k {
                assert(o2[0] == k);
            }
        }
        assert(o2.no_duplicates()) by {
            assert forall|a: int, b: int| 0 <= a < b < o2.len() implies o2[a] != o2[b] by {
                assert(o2[b] == rest[b - 1]);
                assert(order[b - 1] == rest[b - 1]);
                if a > 0 {
                    assert(o2[a] == rest[a - 1]);
                    assert(order[a - 1] == rest[a - 1]);
                } else {
                    assert(order.contains(rest[b - 1]));
                }
            }
        }
    }
}

/// Starting empty, a run of inserts whose distinct keys fit in the capacity
/// evicts nothing: the cache then holds one entry per distinct key, and each
/// key holds the value it was last written with.
pub proof fn lemma_inserts_within_capacity<V>(cap: nat, ops: Seq<(u64, V)>)
    requires
        cap > 0,
        keys_of(ops).to_set().len() <= cap,
    ensures
        ({
            let (order, contents) = after_inserts(Seq::<u64>::empty(), Map::<u64, V>::empty(), cap, ops);
            &&& model_ok(order, contents, cap)
            &&& order.len() == keys_of(ops).to_set().len()
            &&& forall|k: u64| #[trigger] contents.contains_key(k) <==> keys_of(ops).contains(k)
            &&& forall|i: int|
                0 <= i < ops.len() && (forall|j: int| i < j < ops.len() ==> ops[j].0 != ops[i].0)
                    ==> #[trigger] contents[ops[i].0] == ops[i].1
        }),
    decreases ops.len(),
{
    let (order, contents) = after_inserts(Seq::<u64>::empty(), Map::<u64, V>::empty(), cap, ops);
    if ops.len() == 0 {
        assert(keys_of(ops).len() == 0);
        assert(keys_of(ops).to_set() =~= Set::<u64>::empty());
        assert(order.no_duplicates());
    } else {
        let pre = ops.drop_last();
        let (k, v) = ops.last();
        let keys = keys_of(ops);
        let pkeys = keys_of(pre);
        assert(keys =~= pkeys.push(k));
        assert(keys.to_set() =~= pkeys.to_set().insert(k)) by {
            assert forall|x: u64| keys.to_set().contains(x) <==> #[trigger] pkeys.to_set().insert(k).contains(x) by {
                if keys.contains(x) && x != k {
                    let j = choose|j: int| 0 <= j < keys.len() && keys[j] == x;
                    assert(pkeys[j] == x);
                }
                if pkeys.contains(x) {
                    let j = choose|j: int| 0 <= j < pkeys.len() && pkeys[j] == x;
                    assert(keys[j] == x);
                }
                if x == k {
                    assert(keys[keys.len() - 1] == k);
                }
            }
        }
        seq_to_set_is_finite(keys);
        seq_to_set_is_finite(pkeys);
        lemma_len_subset(pkeys.to_set(), keys.to_set());
        lemma_inserts_within_capacity(cap, pre);
        let (po, pc) = after_inserts(Seq::<u64>::empty(), Map::<u64, V>::empty(), cap, pre);
        assert(order == order_after_insert(po, cap, k));
        assert(contents == contents_after_insert(po, pc, cap, k, v));
        lemma_insert_step(po, pc, cap, k, v);
        assert(po.contains(k) == pc.contains_key(k));
        assert(pc.contains_key(k) == pkeys.contains(k));
        assert(pkeys.to_set().contains(k) == pkeys.contains(k));
        if !po.contains(k) {
            assert(!pkeys.to_set().contains(k));
            assert(pkeys.to_set().insert(k).len() == pkeys.to_set().len() + 1);
        } else {
            assert(pkeys.to_set().insert(k) =~= pkeys.to_set());
        }
        assert(contents == pc.insert(k, v));
        order.unique_seq_to_set();
        po.unique_seq_to_set();
        assert forall|i: int|
            0 <= i < ops.len() && (forall|j: int| i < j < ops.len() ==> ops[j].0 != ops[i].0)
                implies #[trigger] contents[ops[i].0] == ops[i].1 by {
            if i < ops.len() - 1 {
                assert(ops[ops.len() - 1].0 != ops[i].0);
                assert(pre[i] == ops[i]);
                assert forall|j: int| i < j < pre.len() implies pre[j].0 != pre[i].0 by {
                    assert(pre[j] == ops[j]);
                }
                assert(pc[pre[i].0] == pre[i].1);
            }
        }
        assert forall|x: u64| #[trigger] contents.contains_key(x) <==> keys.contains(x) by {
            assert(keys.to_set().contains(x) == keys.contains(x));
            assert(pkeys.to_set().contains(x) == pkeys.contains(x));
        }
        assert(order.to_set() =~= keys.to_set()) by {
            assert forall|x: u64| order.to_set().contains(x) <==> #[trigger] keys.to_set().contains(x) by {
                assert(order.contains(x) == contents.contains_key(x));
            }
        }
    }
}

/// A new key inserted into a full cache pushes out exactly the least recently
/// used key, the last of the recency order; every other key stays with its
/// value, and the new key becomes the most recent.
pub proof fn lemma_eviction<V>(order: Seq<u64>, contents: Map<u64, V>, cap: nat, k: u64, v: V)
    requires
        model_ok(order, contents, cap),
        cap > 0,
        order.len() == cap,
        !order.contains(k),
    ensures
        ({
            let o2 = order_after_insert(order, cap, k);
            let c2 = contents_after_insert(order, contents, cap, k, v);
            &&& !c2.contains_key(order.last())
            &&& forall|x: u64|
                order.contains(x) && x != order.last() ==> #[trigger] c2.contains_key(x) && c2[x] == contents[x]
            &&& c2.contains_key(k) && c2[k] == v
            &&& o2 == seq![k] + order.drop_last()
        }),
{
    assert(order.contains(order.last())) by {
        assert(order[order.len() - 1] == order.last());
    }
}

/// Inserting a present key keeps the count, stores the new value, and moves
/// the key to the front exactly as reading it does.
pub proof fn lemma_insert_existing<V>(order: Seq<u64>, contents: Map<u64, V>, cap: nat, k: u64, v: V)
    requires
        model_ok(order, contents, cap),
        cap > 0,
        contents.contains_key(k),
    ensures
        order_after_insert(order, cap, k) == touched(order, k),
        order_after_insert(order, cap, k).len() == order.len(),
        contents_after_insert(order, contents, cap, k, v) == contents.insert(k, v),
        contents_after_insert(order, contents, cap, k, v).dom() == contents.dom(),
{
    lemma_insert_step(order, contents, cap, k, v);
    assert(contents.insert(k, v).dom() =~= contents.dom());
}

/// After a key is removed, reading it finds nothing; removing an absent key
/// answers `Absent` and changes nothing.
pub proof fn lemma_remove_then_get<V>(order: Seq<u64>, contents: Map<u64, V>, cap: nat, k: u64)
    requires
        model_ok(order, contents, cap),
    ensures
        reply_to(contents_after(order, contents, cap, Message::Remove(k)), Message::<V>::Get(k))
            == Response::<V>::Absent,
        !contents.contains_key(k) ==> {
            &&& reply_to(contents, Message::<V>::Remove(k)) == Response::<V>::Absent
            &&& order_after(order, cap, Message::<V>::Remove(k)) == order
            &&& contents_after(order, contents, cap, Message::<V>::Remove(k)) == contents
        },
{
    lemma_remove_value_facts(order, k);
    if !contents.contains_key(k) {
        assert(contents.remove(k) =~= contents);
    }
}

/// Clearing leaves nothing stored, and any run of inserts afterwards ends
/// exactly where it would on a newly built cache.
pub proof fn lemma_clear_is_fresh<V>(order: Seq<u64>, contents: Map<u64, V>, cap: nat, ops: Seq<(u64, V)>)
    ensures
        order_after(order, cap, Message::<V>::Clear) == Seq::<u64>::empty(),
        contents_after(order, contents, cap, Message::<V>::Clear) == Map::<u64, V>::empty(),
        after_inserts(
            order_after(order, cap, Message::<V>::Clear),
            contents_after(order, contents, cap, Message::<V>::Clear),
            cap,
            ops,
        ) == after_inserts(Seq::<u64>::empty(), Map::<u64, V>::empty(), cap, ops),
{
}

/// Inserting `n` new distinct keys puts them in front and keeps the longest
/// prefix of the old order that still fits.
proof fn lemma_fresh_inserts<V>(order: Seq<u64>, contents: Map<u64, V>, cap: nat, ops: Seq<(u64, V)>)
    requires
        order.len() <= cap,
        ops.len() <= cap,
        keys_of(ops).no_duplicates(),
        forall|i: int| 0 <= i < ops.len() ==> !order.contains(#[trigger] ops[i].0),
    ensures
        ({
            let o2 = after_inserts(order, contents, cap, ops).0;
            let n = ops.len() as int;
            let m = if order.len() <= cap - n { order.len() as int } else { cap - n };
            &&& o2.len() == n + m
            &&& forall|j: int| 0 <= j < n ==> keys_of(ops).contains(#[trigger] o2[j])
            &&& forall|j: int| 0 <= j < m ==> #[trigger] o2[n + j] == order[j]
        }),
    decreases ops.len(),
{
    if ops.len() > 0 {
        let pre = ops.drop_last();
        let (k, v) = ops.last();
        let keys = keys_of(ops);
        let pkeys = keys_of(pre);
        assert(keys =~= pkeys.push(k));
        assert(pkeys.no_duplicates()) by {
            assert forall|a: int, b: int| 0 <= a < b < pkeys.len() implies pkeys[a] != pkeys[b] by {
                assert(keys[a] == pkeys[a] && keys[b] == pkeys[b]);
            }
        }
        assert forall|i: int| 0 <= i < pre.len() implies !order.contains(#[trigger] pre[i].0) by {
            assert(pre[i] == ops[i]);
        }
        lemma_fresh_inserts(order, contents, cap, pre);
        let o = after_inserts(order, contents, cap, pre).0;
        let n = ops.len() as int;
        let mp = if order.len() <= cap - (n - 1) { order.len() as int } else { cap - (n - 1) };
        assert(!o.contains(k)) by {
            if o.contains(k) {
                let j = choose|j: int| 0 <= j < o.len() && o[j] == k;
                if j < n - 1 {
                    assert(pkeys.contains(k));
                    let a = choose|a: int| 0 <= a < pkeys.len() && pkeys[a] == k;
                    assert(keys[a] == keys[n - 1]);
                } else {
                    assert(o[(n - 1) + (j - (n - 1))] == order[j - (n - 1)]);
                    assert(!order.contains(ops[n - 1].0));
                }
            }
        }
        let o2 = after_inserts(order, contents, cap, ops).0;
        assert(o2 == order_after_insert(o, cap, k));
        assert forall|j: int| 0 <= j < n implies keys.contains(#[trigger] o2[j]) by {
            if j == 0 {
                assert(keys[n - 1] == k);
            } else {
                assert(o2[j] == o[j - 1]);
                assert(pkeys.contains(o[j - 1]));
                let a = choose|a: int| 0 <= a < pkeys.len() && pkeys[a] == o[j - 1];
                assert(keys[a] == pkeys[a]);
            }
        }
        let m = if order.len() <= cap - n { order.len() as int } else { cap - n };
        assert forall|j: int| 0 <= j < m implies #[trigger] o2[n + j] == order[j] by {
            assert(o2[n + j] == o[(n - 1) + j]);
        }
    }
}

/// After reading `k`, it outlasts every other entry that was there: while
/// new distinct keys keep coming, no older entry is still present once `k`
/// is gone, and after as many new keys as the capacity all of them are gone.
pub proof fn lemma_read_key_evicted_last<V>(
    order: Seq<u64>,
    contents: Map<u64, V>,
    cap: nat,
    k: u64,
    ops: Seq<(u64, V)>,
)
    requires
        model_ok(order, contents, cap),
        contents.contains_key(k),
        ops.len() <= cap,
        keys_of(ops).no_duplicates(),
        forall|i: int| 0 <= i < ops.len() ==> !order.contains(#[trigger] ops[i].0),
    ensures
        ({
            let o2 = after_inserts(touched(order, k), contents, cap, ops).0;
            &&& forall|x: u64| order.contains(x) && #[trigger] o2.contains(x) ==> o2.contains(k)
            &&& ops.len() == cap ==> forall|x: u64| order.contains(x) ==> !#[trigger] o2.contains(x)
        }),
{
    let t = touched(order, k);
    lemma_remove_value_facts(order, k);
    assert(order.contains(k));
    assert(t == seq![k] + order.remove_value(k));
    assert(t[0] == k);
    assert forall|x: u64| #[trigger] t.contains(x) <==> order.contains(x) by {
        if t.contains(x) && x != k {
            let j = choose|j: int| 0 <= j < t.len() && t[j] == x;
            assert(order.remove_value(k)[j - 1] == x);
            assert(order.remove_value(k).contains(x));
        }
        if x == k {
            assert(t[0] == k);
        }
        if order.contains(x) && x != k {
            assert(order.remove_value(k).contains(x));
            let j = choose|j: int| 0 <= j < order.remove_value(k).len() && order.remove_value(k)[j] == x;
            assert(t[j + 1] == x);
        }
    }
    assert forall|i: int| 0 <= i < ops.len() implies !t.contains(#[trigger] ops[i].0) by {
        assert(!order.contains(ops[i].0));
    }
    lemma_fresh_inserts(t, contents, cap, ops);
    let o2 = after_inserts(t, contents, cap, ops).0;
    let n = ops.len() as int;
    let m = if t.len() <= cap - n { t.len() as int } else { cap - n };
    assert forall|x: u64| order.contains(x) && #[trigger] o2.contains(x) implies o2.contains(k) by {
        let j = choose|j: int| 0 <= j < o2.len() && o2[j] == x;
        if j < n {
            let a = choose|a: int| 0 <= a < keys_of(ops).len() && keys_of(ops)[a] == x;
            assert(!order.contains(ops[a].0));
        } else {
            assert(o2[n + 0] == t[0]);
        }
    }
    if ops.len() == cap {
        assert forall|x: u64| order.contains(x) implies !#[trigger] o2.contains(x) by {
            if o2.contains(x) {
                let j = choose|j: int| 0 <= j < o2.len() && o2[j] == x;
                let a = choose|a: int| 0 <= a < keys_of(ops).len() && keys_of(ops)[a] == x;
                assert(!order.contains(ops[a].0));
            }
        }
    }
}

} // verus!
