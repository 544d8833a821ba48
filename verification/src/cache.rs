//! Trusted view of the `lru` crate's cache, as used by the Sixel and
//! iTerm byte caches, plus verified byte-size accounting over it.
use vstd::prelude::*;

verus! {

#[verifier::external_type_specification]
#[verifier::external_body]
#[verifier::reject_recursive_types(K)]
#[verifier::reject_recursive_types(V)]
#[verifier::reject_recursive_types(S)]
pub struct ExLruCache<K, V, S>(lru::LruCache<K, V, S>);

/// The concrete cache both byte caches use: the `lru` crate's cache
/// of encoded payloads keyed by image fingerprint.
pub struct ByteCache {
    inner: lru::LruCache<u64, Vec<u8>>,
}

/// The key-to-payload map held by the `lru` cache inside a byte cache.
pub uninterp spec fn lru_entries(c: ByteCache) -> Map<u64, Seq<u8>>;

/// The keys of the `lru` cache inside a byte cache, ordered from least
/// to most recently used.
pub uninterp spec fn lru_order(c: ByteCache) -> Seq<u64>;

/// Coherence of the two views: the order lists each key exactly once.
pub open spec fn lru_wf(c: ByteCache) -> bool {
    &&& lru_order(c).no_duplicates()
    &&& forall|k: u64| lru_order(c).contains(k) <==> lru_entries(c).dom().contains(k)
}

/// The entries of a byte cache.
pub open spec fn cache_entries(c: ByteCache) -> Map<u64, Seq<u8>> {
    lru_entries(c)
}

/// The recency order of a byte cache.
pub open spec fn cache_order(c: ByteCache) -> Seq<u64> {
    lru_order(c)
}

/// A key sequence with its first occurrence of `k` moved to the
/// most-recently-used end; an absent key is simply appended.
pub open spec fn move_to_back(s: Seq<u64>, k: u64) -> Seq<u64> {
    if s.contains(k) {
        s.remove(s.index_of(k)).push(k)
    } else {
        s.push(k)
    }
}

/// Relies on `lru::LruCache::unbounded`: a cache that holds nothing
/// and never evicts on its own.
#[verifier::external_body]
pub fn lru_new() -> (fresh: ByteCache)
    ensures
        lru_entries(fresh).dom() == Set::<u64>::empty(),
        lru_order(fresh) == Seq::<u64>::empty(),
        lru_wf(fresh),
{
    ByteCache { inner: lru::LruCache::unbounded() }
}

/// Relies on `lru::LruCache::get`: returns the entry under `key` if
/// present and marks it most recently used; absent keys change nothing.
#[verifier::external_body]
pub fn lru_get<'a>(c: &'a mut ByteCache, key: u64) -> (r: Option<&'a Vec<u8>>)
    requires
        lru_wf(*old(c)),
    ensures
        lru_wf(*final(c)),
        lru_entries(*final(c)) == lru_entries(*old(c)),
        (match r {
            Some(v) => {
                &&& lru_entries(*old(c)).dom().contains(key)
                &&& v@ == lru_entries(*old(c))[key]
                &&& lru_order(*final(c)) == move_to_back(lru_order(*old(c)), key)
            },
            None => {
                &&& !lru_entries(*old(c)).dom().contains(key)
                &&& lru_order(*final(c)) == lru_order(*old(c))
            },
        }),
{
    c.inner.get(&key)
}

/// Relies on `lru::LruCache::put`: stores `value` under `key` and
/// makes the key most recently used.
#[verifier::external_body]
pub fn lru_put(c: &mut ByteCache, key: u64, value: Vec<u8>)
    requires
        lru_wf(*old(c)),
    ensures
        lru_wf(*final(c)),
        lru_entries(*final(c)) == lru_entries(*old(c)).insert(key, value@),
        lru_order(*final(c)) == move_to_back(lru_order(*old(c)), key),
{
    let _ = c.inner.put(key, value);
}

/// Relies on `lru::LruCache::pop_lru`: removes and returns the least
/// recently used entry; `None` exactly on an empty cache.
#[verifier::external_body]
pub fn lru_pop_lru(c: &mut ByteCache) -> (r: Option<(u64, Vec<u8>)>)
    requires
        lru_wf(*old(c)),
    ensures
        lru_wf(*final(c)),
        (match r {
            Some(kv) => {
                &&& lru_order(*old(c)).len() > 0
                &&& kv.0 == lru_order(*old(c))[0]
                &&& lru_entries(*old(c)).dom().contains(kv.0)
                &&& kv.1@ == lru_entries(*old(c))[kv.0]
                &&& lru_order(*final(c)) == lru_order(*old(c)).subrange(
                    1,
                    lru_order(*old(c)).len() as int,
                )
                &&& lru_entries(*final(c)) == lru_entries(*old(c)).remove(kv.0)
            },
            None => {
                &&& lru_order(*old(c)).len() == 0
                &&& lru_order(*final(c)) == lru_order(*old(c))
                &&& lru_entries(*final(c)) == lru_entries(*old(c))
            },
        }),
{
    c.inner.pop_lru()
}

/// Relies on `lru::LruCache::len`: one entry per key.
#[verifier::external_body]
pub fn lru_len(c: &ByteCache) -> (r: usize)
    requires
        lru_wf(*c),
    ensures
        r == lru_order(*c).len(),
{
    c.inner.len()
}

/// Total byte size of the entries selected by a key order.
pub open spec fn sum_bytes(order: Seq<u64>, entries: Map<u64, Seq<u8>>) -> int
    decreases order.len(),
{
    if order.len() == 0 {
        0
    } else {
        sum_bytes(order.drop_last(), entries) + entries[order.last()].len()
    }
}

/// The sum only reads the entries its order names.
pub proof fn lemma_sum_bytes_congruent(
    order: Seq<u64>,
    e1: Map<u64, Seq<u8>>,
    e2: Map<u64, Seq<u8>>,
)
    requires
        forall|i: int| 0 <= i < order.len() ==> e1[#[trigger] order[i]] == e2[order[i]],
    ensures
        sum_bytes(order, e1) == sum_bytes(order, e2),
    decreases order.len(),
{
    if order.len() > 0 {
        assert(forall|i: int|
            0 <= i < order.drop_last().len() ==> order.drop_last()[i] == order[i]);
        lemma_sum_bytes_congruent(order.drop_last(), e1, e2);
    }
}

/// Removing the entry at `i` subtracts exactly its byte size.
pub proof fn lemma_sum_bytes_remove(order: Seq<u64>, entries: Map<u64, Seq<u8>>, i: int)
    requires
        0 <= i < order.len(),
    ensures
        sum_bytes(order.remove(i), entries) == sum_bytes(order, entries) - entries[order[i]].len(),
    decreases order.len(),
{
    if i == order.len() - 1 {
        assert(order.remove(i) =~= order.drop_last());
    } else {
        assert(order.remove(i).drop_last() =~= order.drop_last().remove(i));
        assert(order.remove(i).last() == order.last());
        lemma_sum_bytes_remove(order.drop_last(), entries, i);
    }
}

/// Every entry contributes a non-negative amount.
pub proof fn lemma_sum_bytes_nonneg(order: Seq<u64>, entries: Map<u64, Seq<u8>>)
    ensures
        sum_bytes(order, entries) >= 0,
    decreases order.len(),
{
    if order.len() > 0 {
        lemma_sum_bytes_nonneg(order.drop_last(), entries);
    }
}

/// The drop of the least-recently-used key subtracts its byte size.
pub proof fn lemma_sum_bytes_drop_first(order: Seq<u64>, entries: Map<u64, Seq<u8>>)
    requires
        order.len() > 0,
    ensures
        sum_bytes(order.subrange(1, order.len() as int), entries) == sum_bytes(order, entries)
            - entries[order[0]].len(),
{
    assert(order.subrange(1, order.len() as int) =~= order.remove(0));
    lemma_sum_bytes_remove(order, entries, 0);
}

/// Moving a fresh key to the back with a new payload adds exactly that
/// payload's size; re-inserting an existing key swaps its old size for
/// the new one.
pub proof fn lemma_sum_bytes_put(order: Seq<u64>, entries: Map<u64, Seq<u8>>, k: u64, v: Seq<u8>)
    requires
        order.no_duplicates(),
        forall|key: u64| order.contains(key) <==> entries.dom().contains(key),
    ensures
        sum_bytes(move_to_back(order, k), entries.insert(k, v)) == sum_bytes(order, entries) + (
        if entries.dom().contains(k) {
            v.len() - entries[k].len()
        } else {
            v.len() as int
        }),
{
    let e2 = entries.insert(k, v);
    if order.contains(k) {
        let i = order.index_of(k);
        let removed = order.remove(i);
        lemma_sum_bytes_remove(order, entries, i);
        assert(forall|j: int| 0 <= j < removed.len() ==> removed[j] != k) by {
            assert(forall|j: int|
                0 <= j < removed.len() ==> (j < i ==> removed[j] == order[j]) && (j >= i
                    ==> removed[j] == order[j + 1]));
        }
        assert(forall|j: int|
            0 <= j < removed.len() ==> e2[#[trigger] removed[j]] == entries[removed[j]]);
        lemma_sum_bytes_congruent(removed, entries, e2);
        assert(move_to_back(order, k) == removed.push(k));
        assert(sum_bytes(removed.push(k), e2) == sum_bytes(removed, e2) + v.len()) by {
            assert(removed.push(k).drop_last() =~= removed);
        }
    } else {
        assert(forall|j: int| 0 <= j < order.len() ==> order[j] != k) by {
            assert(forall|j: int| 0 <= j < order.len() ==> order.contains(#[trigger] order[j]));
        }
        assert(forall|j: int|
            0 <= j < order.len() ==> e2[#[trigger] order[j]] == entries[order[j]]);
        lemma_sum_bytes_congruent(order, entries, e2);
        assert(sum_bytes(order.push(k), e2) == sum_bytes(order, e2) + v.len()) by {
            assert(order.push(k).drop_last() =~= order);
        }
    }
}

/// Evict least-recently-used entries until the accounted byte size is
/// within `budget` or a single entry remains. The surviving keys are a
/// recency-ordered suffix of the original ones, so the most recent
/// entry is evicted last.
pub fn shrink_to_budget(c: &mut ByteCache, size: &mut usize, budget: usize)
    requires
        lru_wf(*old(c)),
        *old(size) as int == sum_bytes(lru_order(*old(c)), lru_entries(*old(c))),
    ensures
        lru_wf(*final(c)),
        *final(size) as int == sum_bytes(lru_order(*final(c)), lru_entries(*final(c))),
        *final(size) <= budget || lru_order(*final(c)).len() <= 1,
        exists|k: int|
            0 <= k <= lru_order(*old(c)).len() && lru_order(*final(c))
                == #[trigger] lru_order(*old(c)).subrange(
                k,
                lru_order(*old(c)).len() as int,
            ),
        forall|key: u64|
            lru_order(*final(c)).contains(key) ==> lru_entries(*final(c)).dom().contains(key)
                && lru_entries(*final(c))[key] == lru_entries(*old(c))[key],
{
    let ghost order0 = lru_order(*old(c));
    let ghost n0 = order0.len() as int;
    proof {
        assert(order0.subrange(0, n0) =~= order0);
        assert(lru_order(*c) == order0.subrange(0, n0));
    }
    loop
        invariant
            lru_wf(*c),
            *size as int == sum_bytes(lru_order(*c), lru_entries(*c)),
            n0 == order0.len(),
            exists|k: int|
                0 <= k <= n0 && lru_order(*c) == #[trigger] order0.subrange(k, n0),
            forall|key: u64|
                lru_order(*c).contains(key) ==> lru_entries(*c).dom().contains(key)
                    && lru_entries(*c)[key] == lru_entries(*old(c))[key],
        ensures
            lru_wf(*c),
            *size as int == sum_bytes(lru_order(*c), lru_entries(*c)),
            *size <= budget || lru_order(*c).len() <= 1,
            exists|k: int|
                0 <= k <= n0 && lru_order(*c) == #[trigger] order0.subrange(k, n0),
            forall|key: u64|
                lru_order(*c).contains(key) ==> lru_entries(*c).dom().contains(key)
                    && lru_entries(*c)[key] == lru_entries(*old(c))[key],
        decreases lru_order(*c).len(),
    {
        if *size <= budget {
            break;
        }
        if lru_len(c) <= 1 {
            break;
        }
        let ghost pre_order = lru_order(*c);
        let ghost pre_entries = lru_entries(*c);
        let popped = lru_pop_lru(c);
        match popped {
            Some((_key, payload)) => {
                proof {
                    lemma_sum_bytes_drop_first(pre_order, pre_entries);
                    lemma_sum_bytes_nonneg(
                        pre_order.subrange(1, pre_order.len() as int),
                        pre_entries,
                    );
                    assert(pre_entries[pre_order[0]] == payload@);
                    // entries of the surviving keys are untouched by the removal
                    let rest = pre_order.subrange(1, pre_order.len() as int);
                    assert(forall|i: int|
                        0 <= i < rest.len() ==> pre_entries.remove(pre_order[0])[
                        #[trigger] rest[i]] == pre_entries[rest[i]]) by {
                        assert(forall|i: int| 0 <= i < rest.len() ==> rest[i] == pre_order[i + 1]);
                        assert(pre_order.no_duplicates());
                    }
                    lemma_sum_bytes_congruent(
                        rest,
                        pre_entries,
                        pre_entries.remove(pre_order[0]),
                    );
                    let k0 = choose|k: int|
                        0 <= k <= n0 && pre_order == #[trigger] order0.subrange(k, n0);
                    assert(lru_order(*c) =~= order0.subrange(k0 + 1, n0));
                    assert(forall|key: u64|
                        lru_order(*c).contains(key) ==> pre_order.contains(key)
                            && key != pre_order[0]) by {
                        assert(forall|i: int|
                            0 <= i < rest.len() ==> rest[i] == pre_order[i + 1]);
                    }
                }
                *size = *size - payload.len();
            },
            None => {
                proof {
                    assert(false);
                }
            },
        }
    }
}

/// The cache budget law: when the accounting matches the cache and the
/// eviction loop has run, the total byte size stays within the budget
/// plus the size of the one surviving (most recent) entry.
pub proof fn lemma_cache_within_budget(
    order: Seq<u64>,
    entries: Map<u64, Seq<u8>>,
    size: int,
    budget: int,
)
    requires
        size == sum_bytes(order, entries),
        size <= budget || order.len() <= 1,
        budget >= 0,
    ensures
        size <= budget + (if order.len() == 1 {
            entries[order[0]].len() as int
        } else {
            0
        }),
{
    if size > budget {
        if order.len() == 0 {
        } else {
            assert(order.drop_last().len() == 0);
            assert(sum_bytes(order.drop_last(), entries) == 0);
            assert(order.last() == order[0]);
        }
    }
}

} // verus!
