//! What the grouping does, said place by place: in terms of tokens, identifiers,
//! counts and the order of the clusters.

use crate::extraction::classify::var_type;
use crate::extraction::cluster::{
    cluster_of, cluster_views, found_at, holds, position, ClusterView, LogCluster,
};
use crate::extraction::config::{Config, Ratio};
use crate::extraction::drain3::{variable_views, TypedVariable};
use crate::extraction::matching::{
    agreements, best_exists, best_match, covers, full_score, is_best, score_in, score_of, Query,
};
use crate::extraction::state::{merged, variables_of, DrainView, VariableView};
use crate::extraction::tree::live_ids;
use crate::text::{occurrences, texts, tokens_of};
use vstd::prelude::*;

verus! {

/// A part of a whole reaches a fraction where it is at least that fraction of it,
/// both sides multiplied out.
pub proof fn reaching_is_multiplying(fraction: Ratio, part: nat, whole: nat)
    ensures
        fraction.reached(part, whole) <==> part * fraction.denominator >= fraction.numerator
            * whole,
{
}

/// Agreements are counted place by place: those of two stretches add up, and in one
/// place there is one where the template has the token of the line and that is
/// not the one that stands for any token.
pub proof fn agreements_add_up(
    template: Seq<Seq<char>>,
    tokens: Seq<Seq<char>>,
    more_template: Seq<Seq<char>>,
    more_tokens: Seq<Seq<char>>,
    own: Seq<char>,
    token: Seq<char>,
    param: Seq<char>,
)
    requires
        template.len() == tokens.len(),
        more_template.len() == more_tokens.len(),
    ensures
        agreements(template + more_template, tokens + more_tokens, param) == agreements(
            template,
            tokens,
            param,
        ) + agreements(more_template, more_tokens, param),
        agreements(seq![own], seq![token], param) == if own == token && own != param {
            1nat
        } else {
            0nat
        },
    decreases more_template.len(),
{
    let nothing = Seq::<Seq<char>>::empty();
    assert(seq![own].drop_last() =~= nothing);
    assert(seq![token].drop_last() =~= nothing);
    assert(agreements(nothing, nothing, param) == 0);
    if more_template.len() == 0 {
        assert(template + more_template =~= template);
        assert(tokens + more_tokens =~= tokens);
    } else {
        let (a, b) = (more_template.drop_last(), more_tokens.drop_last());
        assert((template + more_template).drop_last() =~= template + a);
        assert((tokens + more_tokens).drop_last() =~= tokens + b);
        assert((template + more_template).last() == more_template.last());
        assert((tokens + more_tokens).last() == more_tokens.last());
        agreements_add_up(template, tokens, a, b, own, token, param);
    }
}

/// A line comes as close to a template as the places are in which they agree, on
/// request with those that stand for any token.
pub proof fn how_close_a_line_comes(
    template: Seq<Seq<char>>,
    tokens: Seq<Seq<char>>,
    param: Seq<char>,
    include_params: bool,
)
    ensures
        score_of(template, tokens, param, include_params).params == occurrences(template, param),
        score_of(template, tokens, param, include_params).similar == agreements(
            template,
            tokens,
            param,
        ) + if include_params {
            occurrences(template, param)
        } else {
            0nat
        },
{
}

/// A template that takes in a line keeps, in every place, a token that the two have
/// in common, and stands for any token where they differ.
pub proof fn merging_place_by_place(
    template: Seq<Seq<char>>,
    tokens: Seq<Seq<char>>,
    param: Seq<char>,
)
    ensures
        merged(template, tokens, param).len() == template.len(),
        forall|i: int|
            0 <= i < template.len() ==> #[trigger] merged(template, tokens, param)[i]
                == if template[i] == tokens[i] {
                tokens[i]
            } else {
                param
            },
{
}

/// A template fits a line where it has as many tokens, and in every place the token of
/// the line or the one that stands for any token.
pub proof fn fitting_place_by_place(
    template: Seq<Seq<char>>,
    tokens: Seq<Seq<char>>,
    param: Seq<char>,
)
    ensures
        covers(template, tokens, param) <==> template.len() == tokens.len() && forall|i: int|
            0 <= i < tokens.len() ==> #[trigger] template[i] == tokens[i] || template[i] == param,
{
}

proof fn variables_add_up(
    template: Seq<Seq<char>>,
    tokens: Seq<Seq<char>>,
    more_template: Seq<Seq<char>>,
    more_tokens: Seq<Seq<char>>,
    param: Seq<char>,
)
    requires
        template.len() == tokens.len(),
        more_template.len() == more_tokens.len(),
    ensures
        variables_of(template + more_template, tokens + more_tokens, param) == variables_of(
            template,
            tokens,
            param,
        ) + variables_of(more_template, more_tokens, param),
    decreases more_template.len(),
{
    let own = variables_of(template, tokens, param);
    if more_template.len() == 0 {
        assert(template + more_template =~= template);
        assert(tokens + more_tokens =~= tokens);
        assert(variables_of(more_template, more_tokens, param) == Seq::<VariableView>::empty());
        assert(own + Seq::<VariableView>::empty() =~= own);
    } else {
        let (a, b) = (more_template.drop_last(), more_tokens.drop_last());
        let front = variables_of(a, b, param);
        assert((template + more_template).drop_last() =~= template + a);
        assert((tokens + more_tokens).drop_last() =~= tokens + b);
        assert((template + more_template).last() == more_template.last());
        assert((tokens + more_tokens).last() == more_tokens.last());
        variables_add_up(template, tokens, a, b, param);
        let variable = VariableView {
            raw: more_tokens.last(),
            var_type: var_type(more_tokens.last()),
        };
        assert((own + front).push(variable) =~= own + front.push(variable));
    }
}

/// Variables come place by place: those of two stretches one after the other, and in
/// one place the token of the line with its kind where the template stands for any
/// token, and none elsewhere.
pub proof fn variables_place_by_place(
    template: Seq<Seq<char>>,
    tokens: Seq<Seq<char>>,
    more_template: Seq<Seq<char>>,
    more_tokens: Seq<Seq<char>>,
    own: Seq<char>,
    token: Seq<char>,
    param: Seq<char>,
)
    requires
        template.len() == tokens.len(),
        more_template.len() == more_tokens.len(),
    ensures
        variables_of(template + more_template, tokens + more_tokens, param) == variables_of(
            template,
            tokens,
            param,
        ) + variables_of(more_template, more_tokens, param),
        own != param ==> variables_of(seq![own], seq![token], param).len() == 0,
        own == param ==> {
            let found = variables_of(seq![own], seq![token], param);
            found.len() == 1 && found[0].raw == token && found[0].var_type == var_type(token)
        },
{
    let nothing = Seq::<Seq<char>>::empty();
    assert(seq![own].drop_last() =~= nothing);
    assert(seq![token].drop_last() =~= nothing);
    assert(variables_of(nothing, nothing, param) == Seq::<VariableView>::empty());
    variables_add_up(template, tokens, more_template, more_tokens, param);
}

/// A template without the token that stands for any token leaves nothing open.
pub proof fn a_closed_template_has_no_variables(
    template: Seq<Seq<char>>,
    tokens: Seq<Seq<char>>,
    param: Seq<char>,
)
    requires
        forall|i: int| 0 <= i < template.len() ==> #[trigger] template[i] != param,
    ensures
        variables_of(template, tokens, param).len() == 0,
    decreases template.len(),
{
    if template.len() > 0 {
        let front = template.drop_last();
        assert forall|i: int| 0 <= i < front.len() implies #[trigger] front[i] != param by {
            assert(front[i] == template[i]);
        }
        a_closed_template_has_no_variables(front, tokens.drop_last(), param);
        assert(template[template.len() - 1] != param);
    }
}

/// A cluster is kept where one of the clusters has its identifier, and is that one.
pub proof fn a_kept_cluster_is_one_of_the_clusters(clusters: Seq<ClusterView>, id: usize, i: int)
    ensures
        holds(clusters, id) ==> clusters.contains(cluster_of(clusters, id)) && cluster_of(
            clusters,
            id,
        ).id == id,
        0 <= i < clusters.len() && clusters[i].id == id ==> holds(clusters, id),
{
    if holds(clusters, id) {
        let at = position(clusters, id);
        assert(0 <= at < clusters.len() && clusters[at].id == id);
    }
}

/// What a cluster, a list of clusters and a list of variables are can be read off
/// their fields.
pub proof fn fields_say_it_all(
    cluster: LogCluster,
    clusters: Seq<LogCluster>,
    variables: Seq<TypedVariable>,
)
    ensures
        cluster@.id == cluster.id,
        cluster@.size == cluster.size,
        cluster@.template.len() == cluster.log_template_tokens@.len(),
        forall|i: int|
            0 <= i < cluster.log_template_tokens@.len() ==> #[trigger] cluster@.template[i]
                == cluster.log_template_tokens@[i]@,
        cluster_views(clusters).len() == clusters.len(),
        forall|i: int|
            0 <= i < clusters.len() ==> #[trigger] cluster_views(clusters)[i] == clusters[i]@,
        variable_views(variables).len() == variables.len(),
        forall|i: int|
            0 <= i < variables.len() ==> (#[trigger] variable_views(variables)[i]).raw
                == variables[i].raw@ && variable_views(variables)[i].var_type
                == variables[i].var_type,
{
}

/// Identifiers whose clusters are gone are dropped from a list, and no others.
pub proof fn only_gone_clusters_are_dropped(
    a: Seq<usize>,
    b: Seq<usize>,
    id: usize,
    clusters: Seq<ClusterView>,
)
    ensures
        live_ids(a + b, clusters) == live_ids(a, clusters) + live_ids(b, clusters),
        live_ids(seq![id], clusters) == if holds(clusters, id) {
            seq![id]
        } else {
            Seq::<usize>::empty()
        },
    decreases b.len(),
{
    let nothing = Seq::<usize>::empty();
    assert(seq![id].drop_last() =~= nothing);
    assert(live_ids(nothing, clusters) =~= nothing);
    assert(nothing.push(id) =~= seq![id]);
    if b.len() == 0 {
        assert(a + b =~= a);
        assert(live_ids(a, clusters) + live_ids(b, clusters) =~= live_ids(a, clusters));
    } else {
        let front = b.drop_last();
        only_gone_clusters_are_dropped(a, front, id, clusters);
        assert((a + b).drop_last() =~= a + front);
        assert((a + b).last() == b.last());
        assert((live_ids(a, clusters) + live_ids(front, clusters)).push(b.last()) =~= live_ids(
            a,
            clusters,
        ) + live_ids(front, clusters).push(b.last()));
    }
}

/// The state before any line: no clusters, no counts, a tree that has a root and
/// nothing in it, a limit that a maximum of 0 leaves open, and the settings with
/// two layers less than the depth.
pub proof fn the_start(config: Config)
    requires
        config.log_cluster_depth >= 3,
    ensures
        ({
            let state = DrainView::initial(config);
            &&& state.clusters.len() == 0
            &&& state.created == 0
            &&& state.trained == 0
            &&& state.limit == if config.max_clusters == 0 {
                usize::MAX as nat
            } else {
                config.max_clusters as nat
            }
            &&& state.config.max_node_depth == config.log_cluster_depth - 2
            &&& state.config.log_cluster_depth == config.log_cluster_depth
            &&& state.config.sim_th == config.sim_th
            &&& state.config.max_children == config.max_children
            &&& state.config.extra_delimiters == config.extra_delimiters
            &&& state.config.max_clusters == config.max_clusters
            &&& state.config.param_string == config.param_string
            &&& forall|path: Seq<Seq<char>>| #[trigger]
                state.tree.contains_key(path) <==> path.len() == 0
            &&& state.tree[Seq::empty()].len() == 0
        }),
{
    let state = DrainView::initial(config);
    assert forall|path: Seq<Seq<char>>| #[trigger] state.tree.contains_key(path) <==> path.len()
        == 0 by {
        if path.len() == 0 {
            assert(path =~= Seq::empty());
        }
    }
}

/// The settings say what the tokens of a line are, which one stands for any token,
/// and how the tree grows.
pub proof fn the_settings_count(state: DrainView, line: Seq<char>)
    ensures
        state.param() == state.config.param_string@,
        state.tokens(line) == tokens_of(line, texts(state.config.extra_delimiters@)),
        state.config.rules().depth == state.config.max_node_depth,
        state.config.rules().children == state.config.max_children,
        state.config.rules().param == state.config.param_string@,
        state.best(state.tokens(line), state.config.sim_th, false) == best_match(
            state.clusters,
            state.candidates(state.tokens(line)),
            (Query {
                tokens: state.tokens(line),
                param: state.param(),
                include_params: false,
            }),
            state.config.sim_th,
        ),
        state.home(state.tokens(line)) == state.best(
            state.tokens(line),
            state.config.sim_th,
            false,
        ),
        state.perfect_match(state.tokens(line)) == state.search(
            state.tokens(line),
            Ratio { numerator: 1, denominator: 1 },
            true,
        ),
{
}

/// The cluster that a line belongs to is one that the tree offers and that is kept,
/// and so much of the line agrees with it as the threshold asks. No other comes
/// closer: those offered before it agree in fewer places, or in as many with fewer
/// places for any token; those offered after it in no more places, or with no more
/// places for any token.
pub proof fn the_closest_cluster_is_taken(
    state: DrainView,
    tokens: Seq<Seq<char>>,
    sim_th: Ratio,
    include_params: bool,
)
    requires
        state.best(tokens, sim_th, include_params) is Some,
    ensures
        tokens.len() > 0,
        ({
            let id = state.best(tokens, sim_th, include_params)->0;
            let param = state.param();
            let template = |id: usize| cluster_of(state.clusters, id).template;
            let params = |id: usize| occurrences(template(id), param);
            let similar = |id: usize|
                agreements(template(id), tokens, param) + if include_params {
                    params(id)
                } else {
                    0nat
                };
            &&& holds(state.clusters, id)
            &&& similar(id) * sim_th.denominator >= sim_th.numerator * tokens.len()
            &&& exists|k: int| #![trigger state.candidates(tokens)[k]] {
                &&& 0 <= k < state.candidates(tokens).len()
                &&& state.candidates(tokens)[k] == id
                &&& forall|j: int|
                    #![trigger state.candidates(tokens)[j]]
                    0 <= j < state.candidates(tokens).len() && holds(
                        state.clusters,
                        state.candidates(tokens)[j],
                    ) ==> {
                        let other = state.candidates(tokens)[j];
                        &&& similar(other) <= similar(id)
                        &&& similar(other) == similar(id) ==> params(other) <= params(id)
                        &&& j < k ==> similar(other) < similar(id) || params(other) < params(id)
                    }
            }
        }),
{
    let id = state.best(tokens, sim_th, include_params)->0;
    let ids = state.candidates(tokens);
    let query = Query { tokens, param: state.param(), include_params };
    let k = choose|k: int| is_best(state.clusters, ids, query, k);
    assert(is_best(state.clusters, ids, query, k));
    assert(ids[k] == id);
    assert forall|j: int|
        #![trigger ids[j]]
        0 <= j < ids.len() && holds(state.clusters, ids[j]) implies ({
        let one = score_in(state.clusters, ids[j], query);
        let best = score_in(state.clusters, id, query);
        &&& one.similar <= best.similar
        &&& one.similar == best.similar ==> one.params <= best.params
        &&& j < k ==> one.similar < best.similar || one.params < best.params
    }) by {}
    assert(state.candidates(tokens)[k] == id);
}

/// A line with tokens belongs to no cluster only where none that the tree offers and
/// that is kept agrees with it as much as the threshold asks.
pub proof fn a_close_cluster_is_taken(
    state: DrainView,
    tokens: Seq<Seq<char>>,
    sim_th: Ratio,
    include_params: bool,
    k: int,
)
    requires
        state.best(tokens, sim_th, include_params) is None,
        tokens.len() > 0,
        0 <= k < state.candidates(tokens).len(),
        holds(state.clusters, state.candidates(tokens)[k]),
    ensures
        ({
            let template = cluster_of(state.clusters, state.candidates(tokens)[k]).template;
            let similar = agreements(template, tokens, state.param()) + if include_params {
                occurrences(template, state.param())
            } else {
                0nat
            };
            similar * sim_th.denominator < sim_th.numerator * tokens.len()
        }),
{
    let ids = state.candidates(tokens);
    let query = Query { tokens, param: state.param(), include_params };
    best_exists(state.clusters, ids, query, k);
    let best = choose|i: int| is_best(state.clusters, ids, query, i);
    assert(is_best(state.clusters, ids, query, best));
    let top = score_in(state.clusters, ids[best], query).similar;
    let similar = score_in(state.clusters, ids[k], query).similar;
    assert(similar <= top);
    assert(similar * sim_th.denominator <= top * sim_th.denominator) by (nonlinear_arith)
        requires
            similar <= top,
    ;
}

/// A line that belongs to a cluster joins it: the cluster comes to the front with its
/// identifier, one line more and a template that has kept what it had in common with
/// the line. The other clusters stay as they are and in their order, and so does
/// everything else.
pub proof fn a_line_joins_its_cluster(state: DrainView, tokens: Seq<Seq<char>>, at: int)
    requires
        state.consistent(),
        state.home(tokens) is Some,
        0 <= at < state.clusters.len(),
        state.clusters[at].id == state.home(tokens)->0,
    ensures
        ({
            let after = state.after_training(tokens);
            let before = state.clusters[at];
            &&& after.clusters.len() == state.clusters.len()
            &&& after.clusters[0].id == before.id
            &&& after.clusters[0].size == before.size + 1
            &&& after.clusters[0].template.len() == tokens.len()
            &&& forall|i: int|
                0 <= i < tokens.len() ==> #[trigger] after.clusters[0].template[i]
                    == if before.template[i] == tokens[i] {
                    tokens[i]
                } else {
                    state.param()
                }
            &&& forall|i: int|
                0 < i <= at ==> #[trigger] after.clusters[i] == state.clusters[i - 1]
            &&& forall|i: int|
                at < i < state.clusters.len() ==> #[trigger] after.clusters[i]
                    == state.clusters[i]
            &&& after.trained == state.trained + 1
            &&& after.created == state.created
            &&& after.tree == state.tree
            &&& after.limit == state.limit
            &&& after.config == state.config
        }),
{
    state.best_is_kept(tokens, state.config.sim_th, false);
    found_at(state.clusters, at);
}

/// A line that belongs to no cluster gets one of its own, in front of the others: its
/// template is the line as it is, its identifier the next one, and it has one line.
/// The others stay in their order; where there were as many as can be kept, the last
/// one leaves. A line without the token that stands for any token then has no
/// variables.
pub proof fn a_line_gets_its_own_cluster(state: DrainView, tokens: Seq<Seq<char>>)
    requires
        state.consistent(),
        state.fits(tokens),
        state.home(tokens) is None,
    ensures
        ({
            let after = state.after_training(tokens);
            &&& after.clusters[0].template == tokens
            &&& after.clusters[0].id == state.created + 1
            &&& after.clusters[0].size == 1
            &&& after.clusters.len() == if state.clusters.len() < state.limit {
                state.clusters.len() + 1
            } else {
                state.limit
            }
            &&& forall|i: int|
                0 < i < after.clusters.len() ==> #[trigger] after.clusters[i]
                    == state.clusters[i - 1]
            &&& after.created == state.created + 1
            &&& after.trained == state.trained + 1
            &&& after.limit == state.limit
            &&& after.config == state.config
            &&& !tokens.contains(state.param()) ==> variables_of(
                after.clusters[0].template,
                tokens,
                state.param(),
            ).len() == 0
        }),
{
    if !tokens.contains(state.param()) {
        assert forall|i: int| 0 <= i < tokens.len() implies #[trigger] tokens[i] != state.param() by {
            assert(tokens.contains(tokens[i]));
        }
        a_closed_template_has_no_variables(tokens, tokens, state.param());
    }
}

/// What is found for a line is one of the clusters that are kept, exactly as it is
/// kept, and one that the tree offers for the line.
pub proof fn a_search_finds_a_kept_cluster(
    state: DrainView,
    tokens: Seq<Seq<char>>,
    sim_th: Ratio,
    include_params: bool,
)
    requires
        state.consistent(),
    ensures
        state.search(tokens, sim_th, include_params) matches Some(cluster) ==> {
            &&& state.clusters.contains(cluster)
            &&& holds(state.clusters, cluster.id)
            &&& cluster_of(state.clusters, cluster.id) == cluster
            &&& state.candidates(tokens).contains(cluster.id)
            &&& tokens.len() > 0 ==> state.best(tokens, sim_th, include_params) == Some(cluster.id)
            &&& tokens.len() == 0 ==> state.candidates(tokens)[0] == cluster.id
        },
        tokens.len() > 0 ==> (state.search(tokens, sim_th, include_params) is Some <==> state.best(
            tokens,
            sim_th,
            include_params,
        ) is Some),
        tokens.len() == 0 ==> (state.search(tokens, sim_th, include_params) is Some
            <==> state.candidates(tokens).len() > 0 && holds(
            state.clusters,
            state.candidates(tokens)[0],
        )),
        state.best_cluster(tokens, sim_th, include_params) matches Some(cluster) ==> {
            &&& state.clusters.contains(cluster)
            &&& state.best(tokens, sim_th, include_params) == Some(cluster.id)
        },
        state.best_cluster(tokens, sim_th, include_params) is Some <==> state.best(
            tokens,
            sim_th,
            include_params,
        ) is Some,
{
    if tokens.len() == 0 {
        if state.search(tokens, sim_th, include_params) is Some {
            let id = state.candidates(tokens)[0];
            let at = position(state.clusters, id);
            assert(0 <= at < state.clusters.len() && state.clusters[at].id == id);
        }
    } else if state.best(tokens, sim_th, include_params) is Some {
        let id = state.best(tokens, sim_th, include_params)->0;
        state.best_is_kept(tokens, sim_th, include_params);
        the_closest_cluster_is_taken(state, tokens, sim_th, include_params);
        let at = position(state.clusters, id);
        assert(0 <= at < state.clusters.len() && state.clusters[at].id == id);
    }
    assert(state.best(Seq::empty(), sim_th, include_params) is None);
    if tokens.len() == 0 {
        assert(tokens =~= Seq::empty());
    }
}

/// A line matches a cluster that has its token or the one that stands for any token in
/// every place. There is such a match wherever the tree offers a kept cluster of that
/// kind, and of several the one that leaves most places open is taken.
pub proof fn a_match_is_perfect(state: DrainView, tokens: Seq<Seq<char>>)
    requires
        state.consistent(),
        tokens.len() > 0,
    ensures
        state.perfect_match(tokens) matches Some(cluster) ==> cluster.template.len()
            == tokens.len() && forall|i: int|
            0 <= i < tokens.len() ==> #[trigger] cluster.template[i] == tokens[i]
                || cluster.template[i] == state.param(),
        forall|k: int|
            0 <= k < state.candidates(tokens).len() && holds(
                state.clusters,
                #[trigger] state.candidates(tokens)[k],
            ) && covers(
                cluster_of(state.clusters, state.candidates(tokens)[k]).template,
                tokens,
                state.param(),
            ) ==> {
                &&& state.perfect_match(tokens) is Some
                &&& occurrences(
                    cluster_of(state.clusters, state.candidates(tokens)[k]).template,
                    state.param(),
                ) <= occurrences(state.perfect_match(tokens)->0.template, state.param())
            },
{
    let whole = Ratio { numerator: 1, denominator: 1 };
    let n = tokens.len();
    let param = state.param();
    state.candidates_have_the_length(tokens);
    state.best_is_kept(tokens, whole, true);
    a_search_finds_a_kept_cluster(state, tokens, whole, true);
    if state.best(tokens, whole, true) is Some {
        the_closest_cluster_is_taken(state, tokens, whole, true);
        let id = state.best(tokens, whole, true)->0;
        let template = cluster_of(state.clusters, id).template;
        full_score(template, tokens, param);
        let similar = agreements(template, tokens, param) + occurrences(template, param);
        assert(similar * 1 >= 1 * n);
    }
    assert forall|k: int|
        0 <= k < state.candidates(tokens).len() && holds(
            state.clusters,
            #[trigger] state.candidates(tokens)[k],
        ) && covers(
            cluster_of(state.clusters, state.candidates(tokens)[k]).template,
            tokens,
            param,
        ) implies {
        &&& state.perfect_match(tokens) is Some
        &&& occurrences(
            cluster_of(state.clusters, state.candidates(tokens)[k]).template,
            param,
        ) <= occurrences(state.perfect_match(tokens)->0.template, param)
    } by {
        let template = cluster_of(state.clusters, state.candidates(tokens)[k]).template;
        full_score(template, tokens, param);
        let n = tokens.len();
        if state.best(tokens, whole, true) is None {
            a_close_cluster_is_taken(state, tokens, whole, true, k);
            assert(n * whole.denominator == n && whole.numerator * n == n);
        } else {
            let id = state.best(tokens, whole, true)->0;
            let found = cluster_of(state.clusters, id).template;
            let query = Query { tokens, param, include_params: true };
            let ids = state.candidates(tokens);
            let best = choose|i: int| is_best(state.clusters, ids, query, i);
            assert(is_best(state.clusters, ids, query, best) && ids[best] == id);
            full_score(found, tokens, param);
            assert(score_in(state.clusters, ids[k], query).similar == n);
            assert(score_in(state.clusters, id, query).similar <= n);
            assert(state.perfect_match(tokens)->0 == cluster_of(state.clusters, id));
        }
    }
}

/// To look up a line changes nothing, but for the cluster of the lines without tokens:
/// where it is found it comes to the front, and the others stay in their order.
pub proof fn a_lookup_moves_one_cluster_at_most(state: DrainView, tokens: Seq<Seq<char>>, at: int)
    requires
        state.consistent(),
    ensures
        tokens.len() > 0 || state.perfect_match(tokens) is None ==> state.after_matching(tokens)
            == state,
        tokens.len() == 0 && state.perfect_match(tokens) is Some && 0 <= at < state.clusters.len()
            && state.clusters[at] == state.perfect_match(tokens)->0 ==> {
            let after = state.after_matching(tokens);
            &&& after.clusters.len() == state.clusters.len()
            &&& after.clusters[0] == state.clusters[at]
            &&& forall|i: int|
                0 < i <= at ==> #[trigger] after.clusters[i] == state.clusters[i - 1]
            &&& forall|i: int|
                at < i < state.clusters.len() ==> #[trigger] after.clusters[i]
                    == state.clusters[i]
            &&& after.tree == state.tree
            &&& after.created == state.created
            &&& after.trained == state.trained
            &&& after.limit == state.limit
            &&& after.config == state.config
        },
{
    if tokens.len() == 0 && state.perfect_match(tokens) is Some && 0 <= at < state.clusters.len()
        && state.clusters[at] == state.perfect_match(tokens)->0 {
        let id = state.candidates(tokens)[0];
        let place = position(state.clusters, id);
        assert(0 <= place < state.clusters.len() && state.clusters[place].id == id);
        found_at(state.clusters, at);
    }
}

/// To list the clusters turns their order round and changes nothing else.
pub proof fn listing_turns_the_order_round(state: DrainView)
    ensures
        state.after_listing().clusters.len() == state.clusters.len(),
        forall|i: int|
            0 <= i < state.clusters.len() ==> #[trigger] state.after_listing().clusters[i]
                == state.clusters[state.clusters.len() - 1 - i],
        state.after_listing().tree == state.tree,
        state.after_listing().created == state.created,
        state.after_listing().trained == state.trained,
        state.after_listing().limit == state.limit,
        state.after_listing().config == state.config,
{
}

} // verus!
