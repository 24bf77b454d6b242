//! What a cache of clusters keeps, after any number of calls.

use crate::extraction::cluster::{
    added, adding, cluster_of, distinct_ids, found_at, holds, position, put, used, using,
    ClusterView,
};
use vstd::prelude::*;

verus! {

/// A call on a cache that has been made.
pub enum CacheStep {
    /// The cluster has been set.
    Put(ClusterView),
    /// The cluster with this identifier has been handed out for change and, where
    /// there was one, has become this one.
    Get(ClusterView),
    /// All clusters have been listed.
    Values,
}

/// The clusters after a call.
pub open spec fn after_cache_step(
    clusters: Seq<ClusterView>,
    limit: nat,
    step: CacheStep,
) -> Seq<ClusterView> {
    match step {
        CacheStep::Put(cluster) => put(clusters, limit, cluster),
        CacheStep::Get(cluster) => if holds(clusters, cluster.id) {
            used(clusters, cluster.id, cluster)
        } else {
            clusters
        },
        CacheStep::Values => clusters.reverse(),
    }
}

/// The clusters that an empty cache holds after calls, from the first on.
pub open spec fn kept_after(limit: nat, steps: Seq<CacheStep>) -> Seq<ClusterView>
    decreases steps.len(),
{
    if steps.len() == 0 {
        Seq::empty()
    } else {
        after_cache_step(kept_after(limit, steps.drop_last()), limit, steps.last())
    }
}

/// The keys that have ever been set.
pub open spec fn keys_set(steps: Seq<CacheStep>) -> Set<usize>
    decreases steps.len(),
{
    if steps.len() == 0 {
        Set::empty()
    } else {
        match steps.last() {
            CacheStep::Put(cluster) => keys_set(steps.drop_last()).insert(cluster.id),
            _ => keys_set(steps.drop_last()),
        }
    }
}

/// A cluster that is used or put comes to the front. One whose identifier was kept
/// leaves its old place, and the others stay in their order; a new one pushes the
/// last of as many as can be kept out, and the others stay in their order too.
pub proof fn the_order_of_use(
    clusters: Seq<ClusterView>,
    limit: nat,
    cluster: ClusterView,
    at: int,
)
    requires
        distinct_ids(clusters),
        clusters.len() <= limit,
        limit > 0,
    ensures
        0 <= at < clusters.len() && clusters[at].id == cluster.id ==> {
            let after = used(clusters, cluster.id, cluster);
            &&& put(clusters, limit, cluster) == after
            &&& after.len() == clusters.len()
            &&& after[0] == cluster
            &&& forall|i: int| 0 < i <= at ==> #[trigger] after[i] == clusters[i - 1]
            &&& forall|i: int| at < i < clusters.len() ==> #[trigger] after[i] == clusters[i]
        },
        (forall|i: int| 0 <= i < clusters.len() ==> (#[trigger] clusters[i]).id != cluster.id) ==> {
            let after = put(clusters, limit, cluster);
            &&& after.len() == if clusters.len() < limit {
                clusters.len() + 1
            } else {
                limit
            }
            &&& after[0] == cluster
            &&& forall|i: int| 0 < i < after.len() ==> #[trigger] after[i] == clusters[i - 1]
        },
{
    if 0 <= at < clusters.len() && clusters[at].id == cluster.id {
        found_at(clusters, at);
    }
}

/// There are no more keys than calls.
pub proof fn no_more_keys_than_calls(steps: Seq<CacheStep>)
    ensures
        keys_set(steps).finite(),
        keys_set(steps).len() <= steps.len(),
    decreases steps.len(),
{
    if steps.len() > 0 {
        no_more_keys_than_calls(steps.drop_last());
    }
}

/// A key that is set at some call is among those that have been set.
proof fn a_set_key_counts(steps: Seq<CacheStep>, k: int)
    requires
        0 <= k < steps.len(),
        steps[k] is Put,
    ensures
        keys_set(steps).contains(steps[k]->Put_0.id),
    decreases steps.len(),
{
    if k < steps.len() - 1 {
        assert(steps.drop_last()[k] == steps[k]);
        a_set_key_counts(steps.drop_last(), k);
    }
}

/// Listing keeps every cluster.
pub proof fn reversing_keeps(clusters: Seq<ClusterView>)
    requires
        distinct_ids(clusters),
    ensures
        distinct_ids(clusters.reverse()),
        forall|id: usize| #[trigger]
            holds(clusters.reverse(), id) <==> holds(clusters, id),
        forall|id: usize| #[trigger]
            holds(clusters.reverse(), id) ==> cluster_of(clusters.reverse(), id) == cluster_of(
                clusters,
                id,
            ),
{
    let after = clusters.reverse();
    let last = clusters.len() - 1;
    assert forall|i: int, j: int| 0 <= i < j < after.len() implies (#[trigger] after[i]).id != (
    #[trigger] after[j]).id by {
        assert(after[i] == clusters[last - i]);
        assert(after[j] == clusters[last - j]);
    }
    assert forall|id: usize| #[trigger] holds(after, id) <==> holds(clusters, id) by {
        if holds(clusters, id) {
            let i = position(clusters, id);
            assert(clusters[i].id == id);
            assert(after[last - i] == clusters[i]);
        }
        if holds(after, id) {
            let i = position(after, id);
            assert(after[i].id == id);
            assert(after[i] == clusters[last - i]);
        }
    }
    assert forall|id: usize| #[trigger] holds(after, id) implies cluster_of(after, id)
        == cluster_of(clusters, id) by {
        let i = position(clusters, id);
        assert(holds(clusters, id));
        assert(clusters[i].id == id);
        assert(after[last - i] == clusters[i]);
        found_at(after, last - i);
    }
}

/// While there have been no more different keys than the limit allows, a cache holds
/// exactly those that have ever been set, whatever calls have been made on it.
pub proof fn a_cache_keeps_its_keys(limit: nat, steps: Seq<CacheStep>)
    requires
        keys_set(steps).len() <= limit,
    ensures
        distinct_ids(kept_after(limit, steps)),
        kept_after(limit, steps).len() == keys_set(steps).len(),
        forall|id: usize| #[trigger]
            holds(kept_after(limit, steps), id) <==> keys_set(steps).contains(id),
    decreases steps.len(),
{
    if steps.len() > 0 {
        let front = steps.drop_last();
        let before = kept_after(limit, front);
        no_more_keys_than_calls(front);
        a_cache_keeps_its_keys(limit, front);
        match steps.last() {
            CacheStep::Put(cluster) => {
                if holds(before, cluster.id) {
                    assert(keys_set(front).contains(cluster.id));
                    assert(keys_set(steps) =~= keys_set(front));
                    using(before, cluster.id, cluster);
                    assert forall|id: usize| #[trigger]
                        holds(kept_after(limit, steps), id) <==> keys_set(steps).contains(id) by {
                        assert(holds(before, id) <==> keys_set(front).contains(id));
                    }
                } else {
                    assert(!keys_set(front).contains(cluster.id));
                    adding(before, limit, cluster);
                    assert forall|id: usize| #[trigger]
                        holds(kept_after(limit, steps), id) <==> keys_set(steps).contains(id) by {
                        assert(holds(before, id) <==> keys_set(front).contains(id));
                    }
                }
            },
            CacheStep::Get(cluster) => {
                if holds(before, cluster.id) {
                    using(before, cluster.id, cluster);
                    assert forall|id: usize| #[trigger]
                        holds(kept_after(limit, steps), id) <==> keys_set(steps).contains(id) by {
                        assert(holds(before, id) <==> keys_set(front).contains(id));
                    }
                }
            },
            CacheStep::Values => {
                reversing_keeps(before);
            },
        }
    }
}

/// A cache without a limit, as `LogClusterCache::new(0)` makes it, still holds every
/// key that has ever been set on it, whatever other calls have been made: until the
/// different keys are more than `usize::MAX`.
pub proof fn without_a_limit_every_key_is_kept(steps: Seq<CacheStep>, k: int)
    requires
        keys_set(steps).len() <= usize::MAX,
        0 <= k < steps.len(),
        steps[k] is Put,
    ensures
        holds(kept_after(usize::MAX as nat, steps), steps[k]->Put_0.id),
{
    a_cache_keeps_its_keys(usize::MAX as nat, steps);
    a_set_key_counts(steps, k);
}

/// What was set under a key last is what is found there, after any calls that do not
/// set or change it.
pub proof fn what_was_set_is_found(limit: nat, steps: Seq<CacheStep>, k: int)
    requires
        keys_set(steps).len() <= limit,
        0 <= k < steps.len(),
        steps[k] is Put,
        forall|j: int|
            #![trigger steps[j]]
            k < j < steps.len() ==> match steps[j] {
                CacheStep::Put(cluster) => cluster.id != steps[k]->Put_0.id,
                CacheStep::Get(cluster) => cluster.id != steps[k]->Put_0.id,
                CacheStep::Values => true,
            },
    ensures
        holds(kept_after(limit, steps), steps[k]->Put_0.id),
        cluster_of(kept_after(limit, steps), steps[k]->Put_0.id) == steps[k]->Put_0,
    decreases steps.len(),
{
    let front = steps.drop_last();
    let before = kept_after(limit, front);
    let id = steps[k]->Put_0.id;
    a_cache_keeps_its_keys(limit, steps);
    a_set_key_counts(steps, k);
    no_more_keys_than_calls(front);
    a_cache_keeps_its_keys(limit, front);
    if k < front.len() {
        assert(front[k] == steps[k]);
        assert forall|j: int|
            #![trigger front[j]]
            k < j < front.len() implies match front[j] {
            CacheStep::Put(cluster) => cluster.id != id,
            CacheStep::Get(cluster) => cluster.id != id,
            CacheStep::Values => true,
        } by {
            assert(front[j] == steps[j]);
        }
        what_was_set_is_found(limit, front, k);
        assert(steps[steps.len() - 1] == steps.last());
        assert(holds(before, id));
    }
    let now = kept_after(limit, steps);
    assert(holds(now, id));
    match steps.last() {
        CacheStep::Put(cluster) => {
            if holds(before, cluster.id) {
                using(before, cluster.id, cluster);
                assert(now == used(before, cluster.id, cluster));
            } else {
                assert(!keys_set(front).contains(cluster.id));
                adding(before, limit, cluster);
                assert(now == added(before, limit, cluster));
            }
        },
        CacheStep::Get(cluster) => {
            if holds(before, cluster.id) {
                using(before, cluster.id, cluster);
            }
        },
        CacheStep::Values => {
            reversing_keeps(before);
            assert(holds(before.reverse(), id));
        },
    }
}

} // verus!
