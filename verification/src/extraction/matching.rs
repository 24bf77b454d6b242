//! How close a log line comes to a template, and which of several clusters it
//! comes closest to.

use crate::extraction::cache::LogClusterCache;
use crate::extraction::cluster::{cluster_of, holds, ClusterView};
use crate::extraction::config::Ratio;
use crate::text::{occurrences, texts};
use vstd::prelude::*;

verus! {

/// In how many places a template has the token of the line, other than the one
/// that stands for any token.
pub open spec fn agreements(
    template: Seq<Seq<char>>,
    tokens: Seq<Seq<char>>,
    param: Seq<char>,
) -> nat
    decreases template.len(),
{
    if template.len() == 0 {
        0
    } else {
        agreements(template.drop_last(), tokens.drop_last(), param) + if template.last() != param
            && template.last() == tokens.last() {
            1nat
        } else {
            0nat
        }
    }
}

/// How close a line comes to a template.
pub struct Score {
    /// How many tokens count as the same.
    pub similar: nat,
    /// How many places of the template stand for any token.
    pub params: nat,
}

/// How close a line comes to a template of the same length. The places for any
/// token count as the same on request.
pub open spec fn score_of(
    template: Seq<Seq<char>>,
    tokens: Seq<Seq<char>>,
    param: Seq<char>,
    include_params: bool,
) -> Score {
    let params = occurrences(template, param);
    Score {
        similar: agreements(template, tokens, param) + if include_params {
            params
        } else {
            0
        },
        params,
    }
}

/// More tokens the same, or as many and more places for any token.
pub open spec fn beats(a: Score, b: Score) -> bool {
    a.similar > b.similar || a.similar == b.similar && a.params > b.params
}

/// A line that is looked for.
pub struct Query {
    pub tokens: Seq<Seq<char>>,
    pub param: Seq<char>,
    pub include_params: bool,
}

/// How close the line comes to the cluster with an identifier.
pub open spec fn score_in(clusters: Seq<ClusterView>, id: usize, query: Query) -> Score {
    score_of(cluster_of(clusters, id).template, query.tokens, query.param, query.include_params)
}

/// The identifier at this place is that of the cluster that the line comes
/// closest to, and the first such.
pub open spec fn is_best(
    clusters: Seq<ClusterView>,
    ids: Seq<usize>,
    query: Query,
    k: int,
) -> bool {
    &&& 0 <= k < ids.len()
    &&& holds(clusters, ids[k])
    &&& forall|j: int|
        0 <= j < ids.len() && j != k && holds(clusters, #[trigger] ids[j]) ==> if j < k {
            beats(score_in(clusters, ids[k], query), score_in(clusters, ids[j], query))
        } else {
            !beats(score_in(clusters, ids[j], query), score_in(clusters, ids[k], query))
        }
}

/// The cluster that a line belongs to, among those with the identifiers: the one
/// that it comes closest to, where it comes close enough. A line without tokens
/// belongs to none.
pub open spec fn best_match(
    clusters: Seq<ClusterView>,
    ids: Seq<usize>,
    query: Query,
    sim_th: Ratio,
) -> Option<usize> {
    let k = choose|k: int| is_best(clusters, ids, query, k);
    if query.tokens.len() > 0 && is_best(clusters, ids, query, k) && sim_th.reached(
        score_in(clusters, ids[k], query).similar,
        query.tokens.len(),
    ) {
        Some(ids[k])
    } else {
        None
    }
}

/// A template fits a line: in every place it has the token of the line or the
/// one that stands for any token.
pub open spec fn covers(
    template: Seq<Seq<char>>,
    tokens: Seq<Seq<char>>,
    param: Seq<char>,
) -> bool {
    template.len() == tokens.len() && forall|i: int|
        0 <= i < template.len() ==> #[trigger] template[i] == param || template[i] == tokens[i]
}

/// No more tokens count as the same than there are, and all of them do where the
/// template fits the line and nowhere else.
pub proof fn full_score(template: Seq<Seq<char>>, tokens: Seq<Seq<char>>, param: Seq<char>)
    requires
        template.len() == tokens.len(),
    ensures
        agreements(template, tokens, param) + occurrences(template, param) <= tokens.len(),
        agreements(template, tokens, param) + occurrences(template, param) == tokens.len()
            <==> covers(template, tokens, param),
    decreases template.len(),
{
    if template.len() > 0 {
        let front = template.drop_last();
        let front_tokens = tokens.drop_last();
        full_score(front, front_tokens, param);
        if covers(front, front_tokens, param) && (template.last() == param || template.last()
            == tokens.last()) {
            assert forall|i: int| 0 <= i < template.len() implies #[trigger] template[i] == param
                || template[i] == tokens[i] by {
                if i < front.len() {
                    assert(front[i] == template[i]);
                }
            }
        }
        if covers(template, tokens, param) {
            assert forall|i: int| 0 <= i < front.len() implies #[trigger] front[i] == param
                || front[i] == front_tokens[i] by {
                assert(front[i] == template[i]);
            }
            assert(template[template.len() - 1] == template.last());
        }
    }
}

/// Among clusters of which at least one is there, a line comes closest to one.
pub proof fn best_exists(clusters: Seq<ClusterView>, ids: Seq<usize>, query: Query, live: int)
    requires
        0 <= live < ids.len(),
        holds(clusters, ids[live]),
    ensures
        exists|k: int| is_best(clusters, ids, query, k),
    decreases ids.len(),
{
    let front = ids.drop_last();
    let last = ids.len() - 1;
    if exists|j: int| 0 <= j < front.len() && holds(clusters, #[trigger] front[j]) {
        let j = choose|j: int| 0 <= j < front.len() && holds(clusters, #[trigger] front[j]);
        best_exists(clusters, front, query, j);
        let k = choose|k: int| is_best(clusters, front, query, k);
        assert(forall|i: int| 0 <= i < front.len() ==> front[i] == #[trigger] ids[i]);
        if holds(clusters, ids[last]) && beats(
            score_in(clusters, ids[last], query),
            score_in(clusters, ids[k], query),
        ) {
            assert forall|i: int| 0 <= i < last && holds(clusters, #[trigger] ids[i]) implies beats(
                score_in(clusters, ids[last], query),
                score_in(clusters, ids[i], query),
            ) by {
                assert(holds(clusters, front[i]));
            }
            assert(is_best(clusters, ids, query, last));
        } else {
            assert(is_best(clusters, ids, query, k));
        }
    } else {
        assert forall|i: int| 0 <= i < last implies !holds(clusters, #[trigger] ids[i]) by {
            assert(front[i] == ids[i]);
        }
        assert(is_best(clusters, ids, query, live));
    }
}

/// Only one place is the best one.
pub proof fn best_is_unique(
    clusters: Seq<ClusterView>,
    ids: Seq<usize>,
    query: Query,
    a: int,
    b: int,
)
    requires
        is_best(clusters, ids, query, a),
        is_best(clusters, ids, query, b),
    ensures
        a == b,
{
    assert(holds(clusters, ids[a]));
    assert(holds(clusters, ids[b]));
}

/// How many tokens of a line count as the same as those of a template, and how
/// many places of the template stand for any token. The similarity of the two is
/// the first number over the number of tokens.
pub fn get_seq_distance_static(
    seq1: &Vec<String>,
    seq2: &Vec<String>,
    include_params: bool,
    param_string: &String,
) -> (distance: (usize, usize))
    requires
        seq1@.len() == seq2@.len(),
    ensures
        (Score { similar: distance.0 as nat, params: distance.1 as nat }) == score_of(
            texts(seq1@),
            texts(seq2@),
            param_string@,
            include_params,
        ),
        distance.0 <= seq1@.len(),
{
    let ghost template = texts(seq1@);
    let ghost tokens = texts(seq2@);
    let mut sim_tokens: usize = 0;
    let mut param_count: usize = 0;
    let mut i: usize = 0;
    while i < seq1.len()
        invariant
            i <= seq1@.len(),
            seq1@.len() == seq2@.len(),
            template == texts(seq1@),
            tokens == texts(seq2@),
            sim_tokens + param_count <= i,
            sim_tokens == agreements(template.take(i as int), tokens.take(i as int), param_string@),
            param_count == occurrences(template.take(i as int), param_string@),
        decreases seq1@.len() - i,
    {
        proof {
            assert(template.take(i + 1).drop_last() == template.take(i as int));
            assert(tokens.take(i + 1).drop_last() == tokens.take(i as int));
        }
        if seq1[i] == *param_string {
            param_count = param_count + 1;
        } else if seq1[i] == seq2[i] {
            sim_tokens = sim_tokens + 1;
        }
        i = i + 1;
    }
    proof {
        assert(template.take(i as int) == template);
        assert(tokens.take(i as int) == tokens);
    }
    if include_params {
        sim_tokens = sim_tokens + param_count;
    }
    (sim_tokens, param_count)
}

/// The cluster that a line belongs to, among those with the identifiers.
pub fn fast_match_id(
    id_to_cluster: &LogClusterCache,
    cluster_ids: &Vec<usize>,
    tokens: &Vec<String>,
    param_string: &String,
    sim_th: &Ratio,
    include_params: bool,
) -> (best: Option<usize>)
    requires
        id_to_cluster.wf(),
        forall|k: int|
            0 <= k < cluster_ids@.len() && holds(id_to_cluster@, #[trigger] cluster_ids@[k])
                ==> cluster_of(id_to_cluster@, cluster_ids@[k]).template.len() == tokens@.len(),
    ensures
        best == best_match(
            id_to_cluster@,
            cluster_ids@,
            (Query { tokens: texts(tokens@), param: param_string@, include_params }),
            *sim_th,
        ),
{
    let ghost clusters = id_to_cluster@;
    let ghost ids = cluster_ids@;
    let ghost query = Query { tokens: texts(tokens@), param: param_string@, include_params };
    if tokens.len() == 0 {
        return None;
    }
    let mut best: Option<usize> = None;
    let mut max_sim: usize = 0;
    let mut max_param_count: usize = 0;
    let mut i: usize = 0;
    while i < cluster_ids.len()
        invariant
            i <= cluster_ids@.len(),
            id_to_cluster.wf(),
            clusters == id_to_cluster@,
            ids == cluster_ids@,
            query == (Query { tokens: texts(tokens@), param: param_string@, include_params }),
            forall|k: int|
                0 <= k < ids.len() && holds(clusters, #[trigger] ids[k]) ==> cluster_of(
                    clusters,
                    ids[k],
                ).template.len() == tokens@.len(),
            best is None ==> forall|j: int| 0 <= j < i ==> !holds(clusters, #[trigger] ids[j]),
            best matches Some(k) ==> {
                &&& is_best(clusters, ids.take(i as int), query, k as int)
                &&& score_in(clusters, ids[k as int], query) == (Score {
                    similar: max_sim as nat,
                    params: max_param_count as nat,
                })
            },
        decreases cluster_ids@.len() - i,
    {
        let ghost seen = ids.take(i as int);
        let ghost more = ids.take(i + 1);
        assert(forall|j: int| 0 <= j < i ==> more[j] == seen[j]);
        if let Some(cluster) = id_to_cluster.peek(cluster_ids[i]) {
            let (cur_sim, param_count) = get_seq_distance_static(
                &cluster.log_template_tokens,
                tokens,
                include_params,
                param_string,
            );
            if best.is_none() || cur_sim > max_sim || (cur_sim == max_sim && param_count
                > max_param_count) {
                proof {
                    assert forall|j: int| 0 <= j < i && holds(clusters, #[trigger] more[j]) implies beats(
                        score_in(clusters, more[i as int], query),
                        score_in(clusters, more[j], query),
                    ) by {
                        assert(holds(clusters, seen[j]));
                        assert(holds(clusters, ids[j]));
                    }
                    assert(is_best(clusters, more, query, i as int));
                }
                max_sim = cur_sim;
                max_param_count = param_count;
                best = Some(i);
            } else {
                assert(is_best(clusters, more, query, best->0 as int));
            }
        } else {
            assert(best matches Some(k) ==> is_best(clusters, more, query, k as int));
        }
        i = i + 1;
    }
    assert(ids.take(i as int) == ids);
    match best {
        Some(k) => {
            proof {
                best_is_unique(
                    clusters,
                    ids,
                    query,
                    k as int,
                    choose|k: int| is_best(clusters, ids, query, k),
                );
            }
            if sim_th.is_reached(max_sim, tokens.len()) {
                Some(cluster_ids[k])
            } else {
                None
            }
        },
        None => None,
    }
}

} // verus!
