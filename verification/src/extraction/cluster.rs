//! Log clusters, and lists of them in the order of their use.

use crate::text::{decimal, join, joined, texts, to_decimal};
use crate::words::all_words;
use vstd::prelude::*;

verus! {

/// What a log cluster is: a template, an identifier, and how many lines it has
/// taken in.
pub struct ClusterView {
    pub template: Seq<Seq<char>>,
    pub id: usize,
    pub size: nat,
}

/// A group of log lines with the same template.
pub struct LogCluster {
    pub log_template_tokens: Vec<String>,
    pub id: usize,
    pub size: usize,
}

impl View for LogCluster {
    type V = ClusterView;

    open spec fn view(&self) -> ClusterView {
        ClusterView {
            template: texts(self.log_template_tokens@),
            id: self.id,
            size: self.size as nat,
        }
    }
}

/// A copy of a list of strings.
pub fn copy_strings(strings: &Vec<String>) -> (copy: Vec<String>)
    ensures
        copy@ == strings@,
{
    let copy = strings.clone();
    assert(copy@ =~= strings@);
    copy
}

impl LogCluster {
    /// The template as one line.
    pub fn get_template(&self) -> (template: String)
        ensures
            template@ == joined(self@.template),
    {
        join(&self.log_template_tokens)
    }

    /// A copy of the cluster.
    pub fn duplicate(&self) -> (copy: LogCluster)
        ensures
            copy@ == self@,
    {
        LogCluster {
            log_template_tokens: copy_strings(&self.log_template_tokens),
            id: self.id,
            size: self.size,
        }
    }

    /// The cluster as one line: its identifier, its size and its template.
    pub fn to_string(&self) -> (line: String)
        ensures
            line@ == "id={"@ + decimal(self@.id as nat) + "} : size={"@ + decimal(self@.size)
                + "} : "@ + joined(self@.template),
    {
        let mut line = String::new();
        line.append("id={");
        line.append(to_decimal(self.id).as_str());
        line.append("} : size={");
        line.append(to_decimal(self.size).as_str());
        line.append("} : ");
        line.append(self.get_template().as_str());
        assert(Seq::<char>::empty() + "id={"@ == "id={"@);
        line
    }
}

/// Whether some cluster has the identifier.
pub open spec fn holds(clusters: Seq<ClusterView>, id: usize) -> bool {
    exists|i: int| 0 <= i < clusters.len() && (#[trigger] clusters[i]).id == id
}

/// Where the cluster with the identifier stands.
pub open spec fn position(clusters: Seq<ClusterView>, id: usize) -> int {
    choose|i: int| 0 <= i < clusters.len() && (#[trigger] clusters[i]).id == id
}

/// The cluster with the identifier.
pub open spec fn cluster_of(clusters: Seq<ClusterView>, id: usize) -> ClusterView {
    clusters[position(clusters, id)]
}

/// The clusters after the one with the identifier has moved to the front and
/// become `cluster`.
pub open spec fn used(clusters: Seq<ClusterView>, id: usize, cluster: ClusterView) -> Seq<
    ClusterView,
> {
    seq![cluster] + clusters.remove(position(clusters, id))
}

/// The clusters after a new one has come to the front; where the limit was
/// reached, the one that was used longest ago has left.
pub open spec fn added(clusters: Seq<ClusterView>, limit: nat, cluster: ClusterView) -> Seq<
    ClusterView,
> {
    seq![cluster] + if clusters.len() == limit {
        clusters.drop_last()
    } else {
        clusters
    }
}

/// The clusters after one has been put in front of the others: in place of the one
/// with its identifier, or as a new one.
pub open spec fn put(clusters: Seq<ClusterView>, limit: nat, cluster: ClusterView) -> Seq<
    ClusterView,
> {
    if holds(clusters, cluster.id) {
        used(clusters, cluster.id, cluster)
    } else {
        added(clusters, limit, cluster)
    }
}

/// What each of the clusters is.
pub open spec fn cluster_views(clusters: Seq<LogCluster>) -> Seq<ClusterView> {
    Seq::new(clusters.len(), |i: int| clusters[i]@)
}

/// No two clusters have the same identifier.
pub open spec fn distinct_ids(clusters: Seq<ClusterView>) -> bool {
    forall|i: int, j: int|
        0 <= i < j < clusters.len() ==> (#[trigger] clusters[i]).id != (#[trigger] clusters[j]).id
}

/// The cluster at a place is the one that its identifier finds.
pub proof fn found_at(clusters: Seq<ClusterView>, i: int)
    requires
        distinct_ids(clusters),
        0 <= i < clusters.len(),
    ensures
        holds(clusters, clusters[i].id),
        position(clusters, clusters[i].id) == i,
        cluster_of(clusters, clusters[i].id) == clusters[i],
{
    let at = position(clusters, clusters[i].id);
    assert(0 <= at < clusters.len() && clusters[at].id == clusters[i].id);
}

/// To use a cluster keeps the others, and which there are.
pub proof fn using(clusters: Seq<ClusterView>, id: usize, cluster: ClusterView)
    requires
        distinct_ids(clusters),
        holds(clusters, id),
        cluster.id == id,
    ensures
        distinct_ids(used(clusters, id, cluster)),
        used(clusters, id, cluster).len() == clusters.len(),
        forall|other: usize|
            holds(used(clusters, id, cluster), other) <==> #[trigger] holds(clusters, other),
        forall|other: usize| #[trigger]
            holds(clusters, other) ==> cluster_of(used(clusters, id, cluster), other) == if other
                == id {
                cluster
            } else {
                cluster_of(clusters, other)
            },
        forall|i: int|
            0 < i < clusters.len() ==> clusters.contains(
                #[trigger] used(clusters, id, cluster)[i],
            ),
{
    let at = position(clusters, id);
    let after = used(clusters, id, cluster);
    assert(clusters[at].id == id);
    assert forall|i: int| 0 < i < after.len() implies clusters.contains(#[trigger] after[i]) by {
        let j = if i - 1 < at {
            i - 1
        } else {
            i
        };
        assert(after[i] == clusters[j]);
    }
    assert forall|i: int, j: int| 0 <= i < j < after.len() implies (#[trigger] after[i]).id != (
    #[trigger] after[j]).id by {
        let from_j = if j - 1 < at {
            j - 1
        } else {
            j
        };
        assert(after[j] == clusters[from_j]);
        if i > 0 {
            let from_i = if i - 1 < at {
                i - 1
            } else {
                i
            };
            assert(after[i] == clusters[from_i]);
        }
    }
    found_at(after, 0);
    assert forall|other: usize| holds(after, other) <==> #[trigger] holds(clusters, other) by {
        if holds(clusters, other) && other != id {
            let j = position(clusters, other);
            let i = if j < at {
                j + 1
            } else {
                j
            };
            assert(after[i] == clusters[j]);
        }
        if holds(after, other) && other != id {
            let i = position(after, other);
            assert(after[i].id == other);
            assert(clusters.contains(after[i]));
        }
    }
    assert forall|other: usize| #[trigger] holds(clusters, other) implies cluster_of(after, other)
        == if other == id {
        cluster
    } else {
        cluster_of(clusters, other)
    } by {
        if other != id {
            let j = position(clusters, other);
            let i = if j < at {
                j + 1
            } else {
                j
            };
            assert(after[i] == clusters[j]);
            found_at(after, i);
        }
    }
}

/// A new cluster takes no other's place but that of the last one of too many.
pub proof fn adding(clusters: Seq<ClusterView>, limit: nat, cluster: ClusterView)
    requires
        distinct_ids(clusters),
        clusters.len() <= limit,
        limit > 0,
        !holds(clusters, cluster.id),
    ensures
        distinct_ids(added(clusters, limit, cluster)),
        added(clusters, limit, cluster).len() <= limit,
        holds(added(clusters, limit, cluster), cluster.id),
        cluster_of(added(clusters, limit, cluster), cluster.id) == cluster,
        forall|other: usize|
            other != cluster.id && #[trigger] holds(added(clusters, limit, cluster), other)
                ==> holds(clusters, other) && cluster_of(added(clusters, limit, cluster), other)
                == cluster_of(clusters, other),
        clusters.len() < limit ==> forall|other: usize| #[trigger]
            holds(clusters, other) ==> holds(added(clusters, limit, cluster), other),
{
    let after = added(clusters, limit, cluster);
    if clusters.len() < limit {
        assert forall|other: usize| #[trigger] holds(clusters, other) implies holds(
            after,
            other,
        ) by {
            let i = position(clusters, other);
            assert(clusters[i].id == other);
            assert(after[i + 1] == clusters[i]);
        }
    }
    assert forall|i: int| 0 < i < after.len() implies after[i] == #[trigger] clusters[i - 1] by {}
    assert forall|i: int, j: int| 0 <= i < j < after.len() implies (#[trigger] after[i]).id != (
    #[trigger] after[j]).id by {
        assert(after[j] == clusters[j - 1]);
        if i > 0 {
            assert(after[i] == clusters[i - 1]);
        }
    }
    found_at(after, 0);
    assert forall|other: usize|
        other != cluster.id && #[trigger] holds(after, other) implies holds(clusters, other)
        && cluster_of(after, other) == cluster_of(clusters, other) by {
        let i = position(after, other);
        assert(after[i].id == other);
        assert(after[i] == clusters[i - 1]);
        found_at(after, i);
        found_at(clusters, i - 1);
    }
}

/// The templates are made of words.
pub open spec fn made_of_words(clusters: Seq<ClusterView>) -> bool {
    forall|i: int| 0 <= i < clusters.len() ==> all_words((#[trigger] clusters[i]).template)
}

/// How many lines the clusters have taken in.
pub open spec fn lines_in(clusters: Seq<ClusterView>) -> nat
    decreases clusters.len(),
{
    if clusters.len() == 0 {
        0
    } else {
        lines_in(clusters.drop_last()) + clusters.last().size
    }
}

proof fn lines_add_up(a: Seq<ClusterView>, b: Seq<ClusterView>)
    ensures
        lines_in(a + b) == lines_in(a) + lines_in(b),
    decreases b.len(),
{
    if b.len() == 0 {
        assert(a + b =~= a);
    } else {
        assert((a + b).drop_last() =~= a + b.drop_last());
        lines_add_up(a, b.drop_last());
    }
}

proof fn lines_of_one(cluster: ClusterView)
    ensures
        lines_in(seq![cluster]) == cluster.size,
{
    assert(seq![cluster].drop_last() =~= Seq::<ClusterView>::empty());
    assert(lines_in(seq![cluster]) == lines_in(seq![cluster].drop_last()) + cluster.size);
}

/// To use a cluster changes the number of lines by what its own number changes.
pub proof fn using_counts(clusters: Seq<ClusterView>, id: usize, cluster: ClusterView)
    requires
        holds(clusters, id),
    ensures
        lines_in(used(clusters, id, cluster)) + cluster_of(clusters, id).size == lines_in(clusters)
            + cluster.size,
{
    let at = position(clusters, id);
    assert(0 <= at < clusters.len() && clusters[at].id == id);
    let before = clusters.take(at);
    let behind = clusters.skip(at + 1);
    let own = seq![clusters[at]];
    lines_of_one(clusters[at]);
    lines_of_one(cluster);
    assert(clusters.remove(at) =~= before + behind);
    assert(clusters =~= before + own + behind);
    lines_add_up(seq![cluster], clusters.remove(at));
    lines_add_up(before, behind);
    lines_add_up(before, own);
    lines_add_up(before + own, behind);
}

/// A new cluster adds its lines, and takes away those of the one that it pushes
/// out.
pub proof fn adding_counts(clusters: Seq<ClusterView>, limit: nat, cluster: ClusterView)
    requires
        limit > 0,
    ensures
        lines_in(added(clusters, limit, cluster)) == lines_in(clusters) + cluster.size
            - if clusters.len() == limit {
            clusters.last().size
        } else {
            0
        },
{
    lines_of_one(cluster);
    if clusters.len() == limit {
        lines_add_up(seq![cluster], clusters.drop_last());
    } else {
        lines_add_up(seq![cluster], clusters);
    }
}

/// The order of the clusters makes no difference to the number of lines.
pub proof fn reversing_counts(clusters: Seq<ClusterView>)
    ensures
        lines_in(clusters.reverse()) == lines_in(clusters),
    decreases clusters.len(),
{
    if clusters.len() > 0 {
        reversing_counts(clusters.drop_last());
        lines_of_one(clusters.last());
        assert(clusters.reverse() =~= seq![clusters.last()] + clusters.drop_last().reverse());
        lines_add_up(seq![clusters.last()], clusters.drop_last().reverse());
    } else {
        assert(clusters.reverse() =~= clusters);
    }
}

} // verus!
