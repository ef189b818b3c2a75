//! The virtualization sweep's eviction policy: window members are always
//! kept; of the other materialized instances, the `budget` most recently
//! touched survive and the older ones are released.

use vstd::prelude::*;
use vstd::seq_lib::to_multiset_update;

use crate::codec::{id_eq, MessageId, Timestamp};

verus! {

/// An instance key: the composite record key (derived records share
/// synthetic ids).
pub type InstKey = (Timestamp, MessageId);

/// Whether `k` is among `keys`.
pub open spec fn key_in(keys: Seq<InstKey>, k: InstKey) -> bool {
    exists|i: int| 0 <= i < keys.len() && keys[i] == k
}

/// The touched instances outside the window, in order.
pub open spec fn candidates(keep: Seq<InstKey>, touches: Seq<(InstKey, u64)>) -> Seq<(InstKey, u64)>
    decreases touches.len(),
{
    if touches.len() == 0 {
        Seq::empty()
    } else {
        let c = candidates(keep, touches.drop_last());
        if key_in(keep, touches.last().0) {
            c
        } else {
            c.push(touches.last())
        }
    }
}

/// Every candidate lies outside the window.
pub proof fn lemma_candidates_outside(keep: Seq<InstKey>, touches: Seq<(InstKey, u64)>)
    ensures
        forall|i: int| 0 <= i < candidates(keep, touches).len() ==> !key_in(keep, (#[trigger] candidates(keep, touches)[i]).0),
    decreases touches.len(),
{
    if touches.len() > 0 {
        lemma_candidates_outside(keep, touches.drop_last());
        let c = candidates(keep, touches.drop_last());
        assert forall|i: int| 0 <= i < candidates(keep, touches).len() implies !key_in(
            keep,
            (#[trigger] candidates(keep, touches)[i]).0,
        ) by {
            if i < c.len() {
                assert(candidates(keep, touches)[i] == c[i]);
            }
        }
    }
}

/// No instance is touched twice: the touches map each instance to its
/// latest touch.
pub open spec fn touch_keys_unique(touches: Seq<(InstKey, u64)>) -> bool {
    forall|i: int, j: int| 0 <= i < j < touches.len() ==> (#[trigger] touches[i]).0 != (#[trigger] touches[j]).0
}

/// How many candidates exceed the budget.
pub open spec fn excess(n: int, budget: int) -> int {
    if n > budget {
        n - budget
    } else {
        0
    }
}

fn contains_key(keys: &[InstKey], k: &InstKey) -> (r: bool)
    ensures
        r == key_in(keys@, *k),
{
    let mut i: usize = 0;
    while i < keys.len()
        invariant
            0 <= i <= keys@.len(),
            forall|j: int| 0 <= j < i ==> keys@[j] != *k,
        decreases keys@.len() - i,
    {
        let (ts, id) = &keys[i];
        if *ts == k.0 && id_eq(id, &k.1) {
            assert(keys@[i as int] == *k);
            return true;
        }
        i = i + 1;
    }
    false
}

/// The soft-window + LRU budget policy: of the touched instances outside
/// `keep`, all but the `budget` most recently touched are released,
/// oldest first. Ties between equal touches may go either way.
pub fn evict_beyond(keep: &[InstKey], touches: &[(InstKey, u64)], budget: usize) -> (r: Vec<InstKey>)
    requires
        touch_keys_unique(touches@),
    ensures
        forall|i: int, j: int| 0 <= i < j < r@.len() ==> r@[i] != r@[j],
        r@.len() == excess(candidates(keep@, touches@).len() as int, budget as int),
        forall|i: int| 0 <= i < r@.len() ==> !key_in(keep@, #[trigger] r@[i]),
        exists|w: Seq<(InstKey, u64)>|
            #[trigger] w.to_multiset() == candidates(keep@, touches@).to_multiset() && {
                &&& w.len() == candidates(keep@, touches@).len()
                &&& forall|i: int| 0 <= i < r@.len() ==> #[trigger] r@[i] == w[i].0
                &&& forall|i: int, j: int|
                    0 <= i < r@.len() <= j < w.len() ==> #[trigger] w[i].1 <= #[trigger] w[j].1
                &&& forall|i: int, j: int|
                    0 <= i < j < r@.len() ==> #[trigger] w[i].1 <= #[trigger] w[j].1
            },
{
    let mut cands: Vec<(InstKey, u64)> = Vec::new();
    let mut t: usize = 0;
    while t < touches.len()
        invariant
            0 <= t <= touches@.len(),
            touch_keys_unique(touches@),
            cands@ == candidates(keep@, touches@.take(t as int)),
            forall|i: int| 0 <= i < cands@.len() ==> exists|x: int| 0 <= x < t && #[trigger] cands@[i] == touches@[x],
            forall|i: int, j: int| 0 <= i < j < cands@.len() ==> (#[trigger] cands@[i]).0 != (#[trigger] cands@[j]).0,
        decreases touches@.len() - t,
    {
        proof {
            assert(touches@.take(t + 1).drop_last() =~= touches@.take(t as int));
        }
        let entry = touches[t];
        if !contains_key(keep, &entry.0) {
            let ghost c = cands@;
            cands.push(entry);
            proof {
                assert forall|i: int| 0 <= i < cands@.len() implies exists|x: int|
                    0 <= x < t + 1 && #[trigger] cands@[i] == touches@[x] by {
                    if i < c.len() {
                        assert(cands@[i] == c[i]);
                    } else {
                        assert(cands@[i] == touches@[t as int]);
                    }
                }
                assert forall|i: int, j: int| 0 <= i < j < cands@.len() implies (#[trigger] cands@[i]).0 != (
                #[trigger] cands@[j]).0 by {
                    if j == c.len() {
                        assert(cands@[i] == c[i]);
                        let x = choose|x: int| 0 <= x < t && #[trigger] c[i] == touches@[x];
                        assert(touches@[x].0 != touches@[t as int].0);
                    } else {
                        assert(cands@[i] == c[i] && cands@[j] == c[j]);
                    }
                }
            }
        }
        t = t + 1;
    }
    assert(touches@.take(touches@.len() as int) =~= touches@);
    let ghost c0 = cands@;
    proof {
        lemma_candidates_outside(keep@, touches@);
    }
    let n = cands.len();
    let mut releases: Vec<InstKey> = Vec::new();
    if n <= budget {
        assert(c0.to_multiset() == c0.to_multiset());
        return releases;
    }
    // Oldest first; release all but the newest `budget`.
    let excess_n = n - budget;
    let mut k: usize = 0;
    while k < excess_n
        invariant
            n == cands@.len(),
            n == c0.len(),
            excess_n <= n,
            0 <= k <= excess_n,
            cands@.to_multiset() == c0.to_multiset(),
            releases@.len() == k,
            forall|i: int| 0 <= i < k ==> !key_in(keep@, #[trigger] releases@[i]),
            forall|i: int| 0 <= i < n ==> !key_in(keep@, (#[trigger] cands@[i]).0),
            forall|i: int| 0 <= i < k ==> #[trigger] releases@[i] == cands@[i].0,
            forall|i: int, j: int| 0 <= i < j < n ==> (#[trigger] cands@[i]).0 != (#[trigger] cands@[j]).0,
            forall|i: int, j: int| 0 <= i < k <= j < n ==> #[trigger] cands@[i].1 <= #[trigger] cands@[j].1,
            forall|i: int, j: int| 0 <= i < j < k ==> #[trigger] cands@[i].1 <= #[trigger] cands@[j].1,
        decreases excess_n - k,
    {
        let mut m = k;
        let mut j = k + 1;
        while j < n
            invariant
                n == cands@.len(),
                k < n,
                k <= m < n,
                k < j <= n,
                forall|x: int| k <= x < j ==> cands@[m as int].1 <= #[trigger] cands@[x].1,
            decreases n - j,
        {
            if cands[j].1 < cands[m].1 {
                m = j;
            }
            j = j + 1;
        }
        let a = cands[k];
        let b = cands[m];
        let ghost before = cands@;
        cands.set(k, b);
        cands.set(m, a);
        proof {
            to_multiset_update(before, k as int, b);
            to_multiset_update(before.update(k as int, b), m as int, a);
            broadcast use vstd::multiset::group_multiset_axioms;
            let m0 = before.to_multiset();
            assert(before.contains(a));
            vstd::seq_lib::to_multiset_contains(before, a);
            assert(before.update(k as int, b)[m as int] == b);
            assert(m0.count(a) > 0);
            assert(m0.insert(b).remove(a).insert(a).remove(b) =~= m0);
            assert(cands@.to_multiset() =~= before.to_multiset());
            assert forall|i: int| 0 <= i < k implies #[trigger] cands@[i].1 <= cands@[k as int].1 by {
                assert(before[i].1 <= before[m as int].1);
            }
            assert forall|i: int, j: int| 0 <= i < j < n implies (#[trigger] cands@[i]).0 != (#[trigger] cands@[j]).0 by {
                let i0 = if i == k { m as int } else if i == m { k as int } else { i };
                let j0 = if j == k { m as int } else if j == m { k as int } else { j };
                assert(cands@[i] == before[i0] && cands@[j] == before[j0]);
                if i0 < j0 {
                    assert(before[i0].0 != before[j0].0);
                } else if j0 < i0 {
                    assert(before[j0].0 != before[i0].0);
                }
            }
        }
        releases.push(b.0);
        k = k + 1;
    }
    releases
}

} // verus!
