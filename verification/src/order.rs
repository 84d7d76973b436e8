//! Sorting by rank, ties broken by place.

use vstd::prelude::*;
use vstd::relations::{sorted_by, total_ordering};
use vstd::seq_lib::lemma_sorted_unique;

verus! {

/// A sort key: the rank that decides, then the place that breaks ties.
pub type Key = (i64, u64);

/// The order on keys.
pub open spec fn key_leq() -> spec_fn(Key, Key) -> bool {
    |a: Key, b: Key| a.0 < b.0 || (a.0 == b.0 && a.1 <= b.1)
}

pub proof fn lemma_key_leq_total()
    ensures
        total_ordering(key_leq()),
{
}

/// The keys in ascending order.
pub open spec fn spec_sorted(keys: Seq<Key>) -> Seq<Key> {
    keys.sort_by(key_leq())
}

/// Sorted keys are the same keys in another order.
pub proof fn lemma_sorted(keys: Seq<Key>)
    ensures
        spec_sorted(keys).len() == keys.len(),
        spec_sorted(keys).to_multiset() == keys.to_multiset(),
        sorted_by(spec_sorted(keys), key_leq()),
        forall|x: Key| spec_sorted(keys).contains(x) <==> keys.contains(x),
{
    broadcast use vstd::seq_lib::group_to_multiset_ensures;

    lemma_key_leq_total();
    keys.lemma_sort_by_ensures(key_leq());
    assert(spec_sorted(keys).len() == spec_sorted(keys).to_multiset().len());
    assert(keys.len() == keys.to_multiset().len());
    assert forall|x: Key| spec_sorted(keys).contains(x) <==> keys.contains(x) by {
        assert(spec_sorted(keys).contains(x) <==> spec_sorted(keys).to_multiset().count(x) > 0);
        assert(keys.contains(x) <==> keys.to_multiset().count(x) > 0);
    }
}

/// Sorts keys in ascending order.
pub fn sort_keys(keys: &Vec<Key>) -> (r: Vec<Key>)
    ensures
        r@ == spec_sorted(keys@),
{
    let mut out: Vec<Key> = Vec::new();
    let n: usize = keys.len();
    let mut i: usize = 0;
    proof {
        broadcast use vstd::seq_lib::group_to_multiset_ensures;

        assert(keys@.take(0) =~= Seq::<Key>::empty());
        assert(out@ =~= keys@.take(0));
    }
    while i < n
        invariant
            0 <= i <= n == keys@.len(),
            out@.len() == i,
            sorted_by(out@, key_leq()),
            out@.to_multiset() == keys@.take(i as int).to_multiset(),
        decreases n - i,
    {
        let key: Key = keys[i];
        let mut at: usize = out.len();
        while at > 0 && (key.0 < out[at - 1].0 || (key.0 == out[at - 1].0 && key.1 < out[at - 1].1))
            invariant
                0 <= at <= out@.len(),
                forall|j: int| at <= j < out@.len() ==> key_leq()(key, #[trigger] out@[j]),
            decreases at,
        {
            at = at - 1;
        }
        let ghost before = out@;
        proof {
            if at > 0 {
                assert(key_leq()(before[at - 1], key));
                assert forall|j: int| 0 <= j < at implies key_leq()(#[trigger] before[j], key) by {
                    assert(key_leq()(before[j], before[at - 1]) || j == at - 1);
                }
            }
        }
        out.insert(at, key);
        i = i + 1;
        proof {
            assert(out@.remove(at as int) =~= before);
            out@.to_multiset_ensures();
            assert(out@[at as int] == key);
            assert(out@.contains(key));
            assert(keys@.take(i as int) =~= keys@.take(i - 1).push(key));
            keys@.take(i - 1).to_multiset_ensures();
            assert(out@.to_multiset() =~= keys@.take(i as int).to_multiset());
        }
    }
    proof {
        assert(keys@.take(n as int) =~= keys@);
        lemma_sorted(keys@);
        lemma_key_leq_total();
        lemma_sorted_unique(out@, spec_sorted(keys@), key_leq());
    }
    out
}

} // verus!
