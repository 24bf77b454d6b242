//! The bounded cache of the most recently used log clusters.

use crate::extraction::cluster::{
    added, cluster_of, cluster_views, distinct_ids, holds, position, put, used, ClusterView,
    LogCluster,
};
use lru::LruCache;
use vstd::prelude::*;

verus! {

/// `lru::LruCache`, the map with a limit that forgets what was used longest ago.
#[verifier::external_type_specification]
#[verifier::external_body]
#[verifier::reject_recursive_types(K)]
#[verifier::reject_recursive_types(V)]
#[verifier::reject_recursive_types(S)]
pub struct ExLruCache<K, V, S>(lru::LruCache<K, V, S>);

/// `lru::DefaultHasher`, the way in which the map hashes its keys.
#[verifier::external_type_specification]
#[verifier::external_body]
pub struct ExDefaultHasher(lru::DefaultHasher);

/// The keys of a cache with their values, the most recently used one first.
pub uninterp spec fn lru_entries(cache: LruCache<usize, LogCluster>) -> Seq<(usize, LogCluster)>;

/// The number of entries that a cache holds at most.
pub uninterp spec fn lru_limit(cache: LruCache<usize, LogCluster>) -> nat;

/// The entries of a cache, as `lru_entries` gives them.
pub type Entries = Seq<(usize, LogCluster)>;

/// Whether a key has an entry.
pub open spec fn has_entry(entries: Entries, key: usize) -> bool {
    exists|i: int| 0 <= i < entries.len() && (#[trigger] entries[i]).0 == key
}

/// Where the entry of a key stands.
pub open spec fn entry_position(entries: Entries, key: usize) -> int {
    choose|i: int| 0 <= i < entries.len() && (#[trigger] entries[i]).0 == key
}

/// The entries after the one of `key` has moved to the front, with `value`.
pub open spec fn entry_used(entries: Entries, key: usize, value: LogCluster) -> Entries {
    seq![(key, value)] + entries.remove(entry_position(entries, key))
}

/// The entries after a new one has come to the front; where the limit was
/// reached, the last one has left.
pub open spec fn entry_added(entries: Entries, limit: nat, key: usize, value: LogCluster) -> Entries {
    seq![(key, value)] + if entries.len() == limit {
        entries.drop_last()
    } else {
        entries
    }
}

/// `LruCache::sparse` makes an empty cache that holds at most `limit` entries
/// and takes memory for them only as they come.
#[verifier::external_body]
fn lru_sparse(limit: usize) -> (cache: LruCache<usize, LogCluster>)
    requires
        limit > 0,
    ensures
        lru_entries(cache) == Seq::<(usize, LogCluster)>::empty(),
        lru_limit(cache) == limit,
{
    LruCache::sparse(std::num::NonZeroUsize::new(limit).unwrap())
}

/// `LruCache::put` gives a key a value and moves its entry to the front. A new
/// key pushes the last entry out of a full cache.
#[verifier::external_body]
fn lru_put(cache: &mut LruCache<usize, LogCluster>, key: usize, value: LogCluster)
    ensures
        lru_limit(*final(cache)) == lru_limit(*old(cache)),
        lru_entries(*final(cache)) == if has_entry(lru_entries(*old(cache)), key) {
            entry_used(lru_entries(*old(cache)), key, value)
        } else {
            entry_added(lru_entries(*old(cache)), lru_limit(*old(cache)), key, value)
        },
{
    cache.put(key, value);
}

/// `LruCache::get` hands out the value of a key and moves its entry to the front.
#[verifier::external_body]
fn lru_get(cache: &mut LruCache<usize, LogCluster>, key: usize) -> (value: Option<&LogCluster>)
    ensures
        lru_limit(*final(cache)) == lru_limit(*old(cache)),
        value is Some <==> has_entry(lru_entries(*old(cache)), key),
        value matches Some(found) ==> {
            &&& found == lru_entries(*old(cache))[entry_position(
                lru_entries(*old(cache)),
                key,
            )].1
            &&& lru_entries(*final(cache)) == entry_used(lru_entries(*old(cache)), key, *found)
        },
        value is None ==> lru_entries(*final(cache)) == lru_entries(*old(cache)),
{
    cache.get(&key)
}

/// `LruCache::get_mut` hands out the value of a key for change and moves its
/// entry to the front.
#[verifier::external_body]
fn lru_get_mut(cache: &mut LruCache<usize, LogCluster>, key: usize) -> (value: Option<
    &mut LogCluster,
>)
    ensures
        lru_limit(*final(cache)) == lru_limit(*old(cache)),
        value is Some <==> has_entry(lru_entries(*old(cache)), key),
        value matches Some(found) ==> {
            &&& *found == lru_entries(*old(cache))[entry_position(
                lru_entries(*old(cache)),
                key,
            )].1
            &&& lru_entries(*final(cache)) == entry_used(
                lru_entries(*old(cache)),
                key,
                *final(found),
            )
        },
        value is None ==> lru_entries(*final(cache)) == lru_entries(*old(cache)),
{
    cache.get_mut(&key)
}

/// `LruCache::peek` hands out the value of a key and leaves the order as it is.
#[verifier::external_body]
fn lru_peek(cache: &LruCache<usize, LogCluster>, key: usize) -> (value: Option<&LogCluster>)
    ensures
        value is Some <==> has_entry(lru_entries(*cache), key),
        value matches Some(found) ==> found == lru_entries(*cache)[entry_position(
            lru_entries(*cache),
            key,
        )].1,
{
    cache.peek(&key)
}

/// `LruCache::iter` visits the entries from the most recently used one on; of
/// each the key is kept.
#[verifier::external_body]
fn lru_keys(cache: &LruCache<usize, LogCluster>) -> (keys: Vec<usize>)
    ensures
        keys@ == lru_entries(*cache).map_values(|entry: (usize, LogCluster)| entry.0),
{
    cache.iter().map(|entry| *entry.0).collect()
}

/// The clusters that the entries of a cache hold.
pub open spec fn clusters_in(entries: Entries) -> Seq<ClusterView> {
    Seq::new(entries.len(), |i: int| entries[i].1@)
}

/// Every cluster stands under its own identifier and no other stands there.
pub open spec fn entries_wf(entries: Entries) -> bool {
    &&& forall|i: int| 0 <= i < entries.len() ==> (#[trigger] entries[i]).0 == entries[i].1.id
    &&& distinct_ids(clusters_in(entries))
}

proof fn same_position(entries: Entries, id: usize)
    requires
        entries_wf(entries),
    ensures
        has_entry(entries, id) <==> holds(clusters_in(entries), id),
        holds(clusters_in(entries), id) ==> {
            &&& entry_position(entries, id) == position(clusters_in(entries), id)
            &&& 0 <= entry_position(entries, id) < entries.len()
            &&& entries[entry_position(entries, id)].0 == id
        },
{
    let clusters = clusters_in(entries);
    if has_entry(entries, id) {
        let i = entry_position(entries, id);
        assert(clusters[i].id == id);
    }
    if holds(clusters, id) {
        let i = position(clusters, id);
        assert(entries[i].0 == id);
        let j = entry_position(entries, id);
        assert(clusters[j].id == id);
    }
}

proof fn entry_used_view(entries: Entries, id: usize, cluster: LogCluster)
    requires
        entries_wf(entries),
        has_entry(entries, id),
    ensures
        clusters_in(entry_used(entries, id, cluster)) == used(clusters_in(entries), id, cluster@),
        entry_used(entries, id, cluster).len() == entries.len(),
        cluster.id == id ==> entries_wf(entry_used(entries, id, cluster)),
{
    same_position(entries, id);
    let at = entry_position(entries, id);
    let after = entry_used(entries, id, cluster);
    assert(clusters_in(after) =~= used(clusters_in(entries), id, cluster@));
    if cluster.id == id {
        let clusters = clusters_in(entries);
        assert forall|i: int, j: int| 0 <= i < j < after.len() implies (#[trigger] clusters_in(
            after,
        )[i]).id != (#[trigger] clusters_in(after)[j]).id by {
            let from_i = if i - 1 < at {
                i - 1
            } else {
                i
            };
            let from_j = if j - 1 < at {
                j - 1
            } else {
                j
            };
            assert(after[j] == entries[from_j]);
            assert(clusters[from_j].id != clusters[at].id || from_j == at);
            if i > 0 {
                assert(after[i] == entries[from_i]);
                assert(clusters[from_i].id != clusters[from_j].id);
            }
        }
    }
}

/// The clusters in use, by their identifiers, the most recently used one first.
pub struct LogClusterCache {
    cache: LruCache<usize, LogCluster>,
}

impl View for LogClusterCache {
    type V = Seq<ClusterView>;

    closed spec fn view(&self) -> Seq<ClusterView> {
        clusters_in(lru_entries(self.cache))
    }
}

impl LogClusterCache {
    /// The number of clusters that the cache holds at most.
    pub closed spec fn limit(&self) -> nat {
        lru_limit(self.cache)
    }

    /// Every cluster stands under its own identifier and no other stands there.
    pub closed spec fn wf(&self) -> bool {
        &&& entries_wf(lru_entries(self.cache))
        &&& self@.len() <= self.limit()
        &&& self.limit() > 0
    }

    /// An empty cache for at most `max_size` clusters; 0 means no limit.
    pub fn new(max_size: usize) -> (cache: LogClusterCache)
        ensures
            cache.wf(),
            cache@ == Seq::<ClusterView>::empty(),
            cache.limit() == if max_size == 0 {
                usize::MAX as nat
            } else {
                max_size as nat
            },
    {
        let size: usize = if max_size == 0 {
            usize::MAX
        } else {
            max_size
        };
        LogClusterCache { cache: lru_sparse(size) }
    }

    /// The cluster with an identifier; the order stays as it is.
    pub fn peek(&self, key: usize) -> (found: Option<&LogCluster>)
        requires
            self.wf(),
        ensures
            found is Some <==> holds(self@, key),
            found matches Some(cluster) ==> cluster@ == cluster_of(self@, key) && cluster.id == key,
    {
        proof {
            same_position(lru_entries(self.cache), key);
        }
        lru_peek(&self.cache, key)
    }

    /// Puts a cluster under its identifier, in front of the others.
    pub fn set(&mut self, key: usize, cluster: LogCluster)
        requires
            old(self).wf(),
            cluster.id == key,
        ensures
            final(self).wf(),
            final(self).limit() == old(self).limit(),
            final(self)@ == put(old(self)@, old(self).limit(), cluster@),
    {
        proof {
            let before = lru_entries(self.cache);
            same_position(before, key);
            if has_entry(before, key) {
                entry_used_view(before, key, cluster);
            } else {
                let after = entry_added(before, lru_limit(self.cache), key, cluster);
                assert(clusters_in(after) =~= added(self@, self.limit(), cluster@));
                assert(distinct_ids(clusters_in(after)));
            }
        }
        lru_put(&mut self.cache, key, cluster);
    }

    /// The cluster with an identifier, for change; it moves to the front.
    pub fn get(&mut self, key: usize) -> (found: Option<&mut LogCluster>)
        requires
            old(self).wf(),
        ensures
            final(self).limit() == old(self).limit(),
            found is Some <==> holds(old(self)@, key),
            found matches Some(cluster) ==> {
                &&& (*cluster)@ == cluster_of(old(self)@, key)
                &&& final(self)@ == used(old(self)@, key, (*final(cluster))@)
                &&& final(cluster).id == key ==> final(self).wf()
            },
            found is None ==> final(self)@ == old(self)@ && final(self).wf(),
    {
        proof {
            let before = lru_entries(self.cache);
            same_position(before, key);
            if has_entry(before, key) {
                assert forall|cluster: LogCluster|
                    #![trigger entry_used(before, key, cluster)]
                    {
                        let after = entry_used(before, key, cluster);
                        &&& clusters_in(after) == used(clusters_in(before), key, cluster@)
                        &&& after.len() == before.len()
                        &&& cluster.id == key ==> entries_wf(after)
                    } by {
                    entry_used_view(before, key, cluster);
                }
            }
        }
        lru_get_mut(&mut self.cache, key)
    }

    /// All clusters, the most recently used one first. Each is used in turn, so
    /// that they stand in the opposite order afterwards.
    pub fn values(&mut self) -> (values: Vec<LogCluster>)
        requires
            old(self).wf(),
        ensures
            final(self).wf(),
            final(self).limit() == old(self).limit(),
            cluster_views(values@) == old(self)@,
            final(self)@ == old(self)@.reverse(),
    {
        let ghost start = lru_entries(self.cache);
        let ghost limit = lru_limit(self.cache);
        proof {
            assert forall|i: int, j: int| 0 <= i < j < start.len() implies (#[trigger] start[i]).0 != (
            #[trigger] start[j]).0 by {
                assert(self@[i].id != self@[j].id);
            }
            assert(start.take(0).reverse() + start.skip(0) =~= start);
        }
        let mut values: Vec<LogCluster> = Vec::new();
        let keys = lru_keys(&self.cache);
        let mut i: usize = 0;
        while i < keys.len()
            invariant
                i <= keys@.len(),
                keys@.len() == start.len(),
                forall|j: int| 0 <= j < start.len() ==> keys@[j] == (#[trigger] start[j]).0,
                forall|j: int, k: int|
                    0 <= j < k < start.len() ==> (#[trigger] start[j]).0 != (#[trigger] start[k]).0,
                lru_limit(self.cache) == limit,
                lru_entries(self.cache) == start.take(i as int).reverse() + start.skip(i as int),
                values@.len() == i,
                forall|j: int| 0 <= j < i ==> (#[trigger] values@[j])@ == start[j].1@,
            decreases keys@.len() - i,
        {
            let ghost now = lru_entries(self.cache);
            proof {
                assert(now[i as int] == start[i as int]);
                let at = entry_position(now, keys@[i as int]);
                assert(now[at].0 == keys@[i as int]);
                assert(at < i ==> now[at] == start[i - 1 - at]);
                assert(at > i ==> now[at] == start[at]);
                assert(entry_used(now, keys@[i as int], start[i as int].1) =~= start.take(
                    i + 1,
                ).reverse() + start.skip(i + 1));
            }
            if let Some(cluster) = lru_get(&mut self.cache, keys[i]) {
                values.push(cluster.duplicate());
            }
            i = i + 1;
        }
        proof {
            let after = lru_entries(self.cache);
            assert(after =~= start.reverse());
            assert(cluster_views(values@) =~= old(self)@);
            assert(self@ =~= old(self)@.reverse());
        }
        values
    }
}

} // verus!
