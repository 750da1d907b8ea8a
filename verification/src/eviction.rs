use std::collections::HashMap;
use vstd::prelude::*;
use vstd::std_specs::iter::IteratorSpec;

use crate::assembler::MessageAssembler;

verus! {

broadcast use vstd::std_specs::hash::group_hash_axioms;

/// `kept` is what remains of the keys of `times` once the oldest are
/// dropped down to `max`: all of them where there are at most `max`;
/// else exactly `max` of them, none older than any key dropped.
pub open spec fn keeps_newest(times: Map<u64, u64>, kept: Set<u64>, max: usize) -> bool {
    &&& kept.subset_of(times.dom())
    &&& if times.dom().len() > max {
        &&& kept.len() == max
        &&& forall|r: u64, k: u64|
            times.dom().contains(r) && !kept.contains(r) && kept.contains(k) ==> times[r]
                <= times[k]
    } else {
        kept == times.dom()
    }
}

/// What is kept never exceeds the limit.
pub proof fn lemma_keeps_newest_bound(times: Map<u64, u64>, kept: Set<u64>, max: usize)
    requires
        keeps_newest(times, kept, max),
    ensures
        kept.len() <= max,
{
}

/// Removes the oldest entries of `m` until at most `max` remain. The keys
/// of `m` are `ids`, and entry `ids[i]` is dated `times[i]`; which of two
/// entries of one date goes first is left open.
pub(crate) fn evict_oldest<V>(
    m: &mut HashMap<u64, V>,
    ids: &Vec<u64>,
    times: &Vec<u64>,
    max: usize,
    Ghost(tm): Ghost<Map<u64, u64>>,
)
    requires
        ids@.len() == times@.len(),
        ids@.no_duplicates(),
        ids@.to_set() == old(m)@.dom(),
        tm.dom() == old(m)@.dom(),
        forall|i: int| 0 <= i < ids@.len() ==> tm[#[trigger] ids@[i]] == times@[i],
    ensures
        forall|k: u64| #[trigger]
            final(m)@.contains_key(k) ==> old(m)@.contains_key(k) && final(m)@[k] == old(m)@[k],
        keeps_newest(tm, final(m)@.dom(), max),
{
    let n = ids.len();
    let ghost old_m = m@;
    proof {
        ids@.unique_seq_to_set();
    }
    if n <= max {
        return;
    }
    let mut alive: Vec<bool> = Vec::new();
    while alive.len() < n
        invariant
            alive@.len() <= n,
            forall|i: int| 0 <= i < alive@.len() ==> alive@[i],
        decreases n - alive@.len(),
    {
        alive.push(true);
    }
    assert forall|i: int| 0 <= i < n implies (#[trigger] alive@[i] <==> m@.contains_key(
        ids@[i],
    )) by {
        assert(ids@.to_set().contains(ids@[i]));
    }
    let mut remaining = n;
    while remaining > max
        invariant
            n == ids@.len(),
            n == times@.len(),
            alive@.len() == n,
            old_m == old(m)@,
            ids@.no_duplicates(),
            ids@.to_set() == old_m.dom(),
            tm.dom() == old_m.dom(),
            forall|i: int| 0 <= i < ids@.len() ==> tm[#[trigger] ids@[i]] == times@[i],
            forall|i: int| 0 <= i < n ==> (#[trigger] alive@[i] <==> m@.contains_key(ids@[i])),
            forall|k: u64| #[trigger]
                m@.contains_key(k) ==> old_m.contains_key(k) && m@[k] == old_m[k],
            m@.dom().finite(),
            m@.dom().len() == remaining,
            remaining >= max,
            forall|i: int, j: int|
                0 <= i < n && 0 <= j < n && !#[trigger] alive@[i] && #[trigger] alive@[j]
                    ==> times@[i] <= times@[j],
        decreases remaining,
    {
        let mut best: usize = n;
        let mut j: usize = 0;
        while j < n
            invariant
                n == alive@.len(),
                n == times@.len(),
                j <= n,
                best == n || (best < n && alive@[best as int] && forall|t: int|
                    0 <= t < j && #[trigger] alive@[t] ==> times@[best as int] <= times@[t]),
                best == n ==> forall|t: int| 0 <= t < j ==> !#[trigger] alive@[t],
            decreases n - j,
        {
            if alive[j] && (best == n || times[j] < times[best]) {
                best = j;
            }
            j = j + 1;
        }
        if best == n {
            proof {
                assert(m@.dom().len() > 0);
                let k = m@.dom().choose();
                assert(m@.contains_key(k));
                assert(old_m.dom().contains(k));
                assert(ids@.to_set().contains(k));
                let i = choose|i: int| 0 <= i < ids@.len() && #[trigger] ids@[i] == k;
                assert(alive@[i]);
            }
        }
        let id = ids[best];
        m.remove(&id);
        alive.set(best, false);
        proof {
            assert forall|i: int| 0 <= i < n implies (#[trigger] alive@[i] <==> m@.contains_key(
                ids@[i],
            )) by {
                if i != best {
                    assert(ids@[i] != ids@[best as int]);
                }
            }
        }
        remaining = remaining - 1;
    }
    proof {
        let kept = m@.dom();
        assert(kept.subset_of(tm.dom()));
        assert forall|r: u64, k: u64|
            tm.dom().contains(r) && !kept.contains(r) && kept.contains(k) implies tm[r] <= tm[k] by {
            assert(ids@.to_set().contains(r));
            assert(ids@.to_set().contains(k));
            let i = choose|i: int| 0 <= i < ids@.len() && #[trigger] ids@[i] == r;
            let j = choose|j: int| 0 <= j < ids@.len() && #[trigger] ids@[j] == k;
            assert(!alive@[i]);
            assert(alive@[j]);
        }
    }
}

/// The keys of `m`, each once.
pub(crate) fn keys_of<V>(m: &HashMap<u64, V>) -> (ids: Vec<u64>)
    ensures
        ids@.to_set() == m@.dom(),
        ids@.no_duplicates(),
        ids@.len() == m@.dom().len(),
{
    let mut ids: Vec<u64> = Vec::new();
    let ghost s = m.keys().remaining();
    for k in it: m.keys()
        invariant
            it.seq() == s,
            ids@.len() == it.index(),
            forall|i: int| 0 <= i < it.index() ==> ids@[i] == *s[i],
    {
        ids.push(*k);
    }
    assert(ids@ =~= s.map_values(|r: &u64| *r));
    assert(s.map_values(|r: &u64| *r) =~= s.unref());
    proof {
        ids@.unique_seq_to_set();
    }
    ids
}

/// Removes from `m` every assembler that has expired at `now`.
pub(crate) fn drop_expired_assemblers(m: &mut HashMap<u64, MessageAssembler>, now: u64, timeout: u64)
    ensures
        final(m)@ == old(m)@.restrict(
            Set::new(|k: u64| !old(m)@[k]@.expired_at(now, timeout)),
        ),
{
    let ids = keys_of(m);
    let ghost old_m = m@;
    let mut i: usize = 0;
    while i < ids.len()
        invariant
            old_m == old(m)@,
            ids@.to_set() == old_m.dom(),
            ids@.no_duplicates(),
            i <= ids@.len(),
            forall|k: u64|
                #![trigger m@.contains_key(k)]
                m@.contains_key(k) <==> (old_m.contains_key(k) && !(ids@.take(i as int).contains(
                    k,
                ) && old_m[k]@.expired_at(now, timeout))),
            forall|k: u64| m@.contains_key(k) ==> m@[k] == old_m[k],
        decreases ids@.len() - i,
    {
        let id = ids[i];
        assert(ids@.take(i + 1) =~= ids@.take(i as int).push(id));
        assert(!ids@.take(i as int).contains(id)) by {
            if ids@.take(i as int).contains(id) {
                let j = choose|j: int| 0 <= j < i && ids@.take(i as int)[j] == id;
                assert(ids@[j] == ids@[i as int]);
            }
        }
        assert(ids@.to_set().contains(id));
        let expired = match m.get(&id) {
            Some(a) => a.is_expired(now, timeout),
            None => false,
        };
        if expired {
            m.remove(&id);
        }
        assert forall|k: u64| #[trigger] ids@.take(i + 1).contains(k) == (ids@.take(
            i as int,
        ).contains(k) || k == id) by {
            if k == id {
                assert(ids@.take(i + 1)[i as int] == id);
            }
            let t1 = ids@.take(i + 1);
            if t1.contains(k) && k != id {
                let j = choose|j: int| 0 <= j < t1.len() && #[trigger] t1[j] == k;
                assert(ids@.take(i as int)[j] == k);
            }
        }
        i = i + 1;
    }
    assert(ids@.take(ids@.len() as int) =~= ids@);
    assert forall|k: u64| old_m.contains_key(k) implies ids@.contains(k) by {
        assert(ids@.to_set().contains(k));
    }
    assert(m@ =~= old_m.restrict(Set::new(|k: u64| !old_m[k]@.expired_at(now, timeout))));
}

/// Removes from `m` every entry older than `timeout` at `now`.
pub(crate) fn drop_expired_times(m: &mut HashMap<u64, u64>, now: u64, timeout: u64)
    ensures
        final(m)@ == old(m)@.restrict(
            Set::new(|k: u64| !(now > old(m)@[k] && now - old(m)@[k] > timeout)),
        ),
{
    let ids = keys_of(m);
    let ghost old_m = m@;
    let mut i: usize = 0;
    while i < ids.len()
        invariant
            old_m == old(m)@,
            ids@.to_set() == old_m.dom(),
            ids@.no_duplicates(),
            i <= ids@.len(),
            forall|k: u64|
                #![trigger m@.contains_key(k)]
                m@.contains_key(k) <==> (old_m.contains_key(k) && !(ids@.take(i as int).contains(
                    k,
                ) && (now > old_m[k] && now - old_m[k] > timeout))),
            forall|k: u64| m@.contains_key(k) ==> m@[k] == old_m[k],
        decreases ids@.len() - i,
    {
        let id = ids[i];
        assert(ids@.take(i + 1) =~= ids@.take(i as int).push(id));
        assert(!ids@.take(i as int).contains(id)) by {
            if ids@.take(i as int).contains(id) {
                let j = choose|j: int| 0 <= j < i && ids@.take(i as int)[j] == id;
                assert(ids@[j] == ids@[i as int]);
            }
        }
        assert(ids@.to_set().contains(id));
        let expired = match m.get(&id) {
            Some(t) => now > *t && now - *t > timeout,
            None => false,
        };
        if expired {
            m.remove(&id);
        }
        assert forall|k: u64| #[trigger] ids@.take(i + 1).contains(k) == (ids@.take(
            i as int,
        ).contains(k) || k == id) by {
            if k == id {
                assert(ids@.take(i + 1)[i as int] == id);
            }
            let t1 = ids@.take(i + 1);
            if t1.contains(k) && k != id {
                let j = choose|j: int| 0 <= j < t1.len() && #[trigger] t1[j] == k;
                assert(ids@.take(i as int)[j] == k);
            }
        }
        i = i + 1;
    }
    assert(ids@.take(ids@.len() as int) =~= ids@);
    assert forall|k: u64| old_m.contains_key(k) implies ids@.contains(k) by {
        assert(ids@.to_set().contains(k));
    }
    assert(m@ =~= old_m.restrict(
        Set::new(|k: u64| !(now > old_m[k] && now - old_m[k] > timeout)),
    ));
}

} // verus!
