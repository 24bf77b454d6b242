//! What holds of the grouping of log lines as a whole.

use crate::extraction::cluster::{
    adding, adding_counts, cluster_of, found_at, holds, lines_in, position, using, using_counts,
};
use crate::extraction::config::{Config, Ratio};
use crate::extraction::growth::{filing, live_ids_are_ids, well_grown};
use crate::extraction::matching::{
    agreements, beats, best_exists, best_is_unique, best_match, covers, full_score, is_best,
    score_in, Query,
};
use crate::extraction::state::{merged, variables_of, DrainView, VariableView};
use crate::extraction::tree::{child_keys, filed, layer, leaf_of, live_ids, Path, Rules, Tree};
use crate::text::{joined, occurrences, texts, words};
use crate::words::{all_words, is_word, joining_loses_nothing, tokens_are_words};
use vstd::prelude::*;

verus! {

/// Before any line there is no cluster to join or to match.
pub proof fn nothing_matches_at_first(config: Config, tokens: Seq<Seq<char>>)
    ensures
        DrainView::initial(config).home(tokens) is None,
        DrainView::initial(config).perfect_match(tokens) is None,
{
    let state = DrainView::initial(config);
    assert(layer(tokens.len()).len() == 1);
    assert(state.candidates(tokens) == Seq::<usize>::empty());
}

/// The cluster that a line is given fits it: its template has, in every place,
/// the token of the line or the one that stands for any token.
pub proof fn a_trained_cluster_fits_its_line(state: DrainView, tokens: Seq<Seq<char>>)
    requires
        state.consistent(),
    ensures
        covers(state.after_training(tokens).clusters[0].template, tokens, state.param()),
{
    state.best_is_kept(tokens, state.config.sim_th, false);
}

/// A cluster that a line is found to match fits it.
pub proof fn a_match_fits_its_line(state: DrainView, tokens: Seq<Seq<char>>)
    requires
        state.consistent(),
    ensures
        state.perfect_match(tokens) matches Some(cluster) ==> covers(
            cluster.template,
            tokens,
            state.param(),
        ),
{
    let whole = Ratio { numerator: 1, denominator: 1 };
    state.candidates_have_the_length(tokens);
    state.best_is_kept(tokens, whole, true);
    if tokens.len() > 0 && state.perfect_match(tokens) is Some {
        let id = state.best(tokens, whole, true)->0;
        full_score(cluster_of(state.clusters, id).template, tokens, state.param());
    } else if state.perfect_match(tokens) is Some {
        assert(holds(state.clusters, state.candidates(tokens)[0]));
    }
}

/// A line with tokens matches wherever one of the clusters that the tree offers
/// for it fits it.
pub proof fn a_fitting_cluster_is_found(state: DrainView, tokens: Seq<Seq<char>>, k: int)
    requires
        state.consistent(),
        tokens.len() > 0,
        0 <= k < state.candidates(tokens).len(),
        holds(state.clusters, state.candidates(tokens)[k]),
        covers(
            cluster_of(state.clusters, state.candidates(tokens)[k]).template,
            tokens,
            state.param(),
        ),
    ensures
        state.perfect_match(tokens) is Some,
{
    let ids = state.candidates(tokens);
    let query = Query { tokens, param: state.param(), include_params: true };
    state.candidates_have_the_length(tokens);
    best_exists(state.clusters, ids, query, k);
    let best = choose|i: int| is_best(state.clusters, ids, query, i);
    assert(is_best(state.clusters, ids, query, best));
    full_score(cluster_of(state.clusters, ids[k]).template, tokens, state.param());
    full_score(cluster_of(state.clusters, ids[best]).template, tokens, state.param());
    if k != best {
        assert(holds(state.clusters, ids[k]));
    }
    assert(score_in(state.clusters, ids[best], query).similar == tokens.len());
    let whole = Ratio { numerator: 1, denominator: 1 };
    let n = tokens.len();
    assert(n * whole.denominator >= whole.numerator * n) by (nonlinear_arith)
        requires
            whole.denominator == 1,
            whole.numerator == 1,
    ;
    assert(best_match(state.clusters, ids, query, whole) == Some(ids[best]));
}

/// A line with tokens that has been taken in is found again at once.
pub proof fn a_trained_line_matches(state: DrainView, tokens: Seq<Seq<char>>)
    requires
        state.consistent(),
        state.fits(tokens),
        tokens.len() > 0,
    ensures
        state.after_training(tokens).perfect_match(tokens) is Some,
{
    let after = state.after_training(tokens);
    let id = after.clusters[0].id;
    state.training_keeps_consistent(tokens);
    state.best_is_kept(tokens, state.config.sim_th, false);
    a_trained_cluster_fits_its_line(state, tokens);
    found_at(after.clusters, 0);
    let ids = after.candidates(tokens);
    let k = match state.home(tokens) {
        Some(_) => {
            let query = Query { tokens, param: state.param(), include_params: false };
            choose|k: int| is_best(state.clusters, ids, query, k)
        },
        None => {
            filing(
                state.tree,
                state.config.rules(),
                tokens,
                (state.created + 1) as usize,
                state.clusters,
            );
            ids.len() - 1
        },
    };
    assert(ids[k] == id);
    a_fitting_cluster_is_found(after, tokens, k);
}

/// A line goes to the same cluster when it comes again. For one that got a cluster of
/// its own this takes that it has enough in common with itself: places for any
/// token do not count.
pub proof fn a_repeated_line_joins_its_cluster(state: DrainView, tokens: Seq<Seq<char>>)
    requires
        state.consistent(),
        state.fits(tokens),
        tokens.len() > 0,
        state.home(tokens) is None ==> state.config.sim_th.reached(
            agreements(tokens, tokens, state.param()),
            tokens.len(),
        ),
    ensures
        state.after_training(tokens).home(tokens) == Some(
            state.after_training(tokens).clusters[0].id,
        ),
{
    if state.home(tokens) is Some {
        a_line_stays_in_its_cluster(state, tokens);
    } else {
        a_line_joins_its_own_cluster(state, tokens);
    }
}

/// A line without the token that stands for any token has enough in common with
/// itself, unless more than all of its tokens would have to agree.
pub proof fn a_line_is_similar_to_itself(state: DrainView, tokens: Seq<Seq<char>>)
    requires
        !tokens.contains(state.param()),
        state.config.sim_th.numerator <= state.config.sim_th.denominator,
    ensures
        state.config.sim_th.reached(agreements(tokens, tokens, state.param()), tokens.len()),
{
    let th = state.config.sim_th;
    let n = tokens.len();
    all_agree(tokens, state.param());
    assert(n * th.denominator >= th.numerator * n) by (nonlinear_arith)
        requires
            th.numerator <= th.denominator,
    ;
}

/// A line agrees with itself in every place that does not stand for any token.
proof fn all_agree(tokens: Seq<Seq<char>>, param: Seq<char>)
    requires
        !tokens.contains(param),
    ensures
        agreements(tokens, tokens, param) == tokens.len(),
    decreases tokens.len(),
{
    if tokens.len() > 0 {
        let front = tokens.drop_last();
        assert forall|i: int| 0 <= i < front.len() implies front[i] != param by {
            assert(tokens[i] == front[i]);
        }
        assert(tokens[tokens.len() - 1] == tokens.last());
        all_agree(front, param);
    }
}

/// A template that takes in a line agrees with it as much as before, and has no
/// fewer places for any token.
proof fn merging_keeps_the_score(
    template: Seq<Seq<char>>,
    tokens: Seq<Seq<char>>,
    param: Seq<char>,
)
    requires
        template.len() == tokens.len(),
    ensures
        agreements(merged(template, tokens, param), tokens, param) == agreements(
            template,
            tokens,
            param,
        ),
        occurrences(merged(template, tokens, param), param) >= occurrences(template, param),
    decreases template.len(),
{
    if template.len() > 0 {
        let front = template.drop_last();
        let front_tokens = tokens.drop_last();
        merging_keeps_the_score(front, front_tokens, param);
        assert(merged(template, tokens, param).drop_last() =~= merged(front, front_tokens, param));
    }
}

proof fn a_line_stays_in_its_cluster(state: DrainView, tokens: Seq<Seq<char>>)
    requires
        state.consistent(),
        state.home(tokens) is Some,
    ensures
        state.after_training(tokens).home(tokens) == state.home(tokens),
{
    let after = state.after_training(tokens);
    let ids = state.candidates(tokens);
    let query = Query { tokens, param: state.param(), include_params: false };
    let id = state.home(tokens)->0;
    let k = choose|k: int| is_best(state.clusters, ids, query, k);
    assert(is_best(state.clusters, ids, query, k) && ids[k] == id);
    state.best_is_kept(tokens, state.config.sim_th, false);
    using(state.clusters, id, after.clusters[0]);
    merging_keeps_the_score(cluster_of(state.clusters, id).template, tokens, state.param());
    let before_score = score_in(state.clusters, id, query);
    let after_score = score_in(after.clusters, id, query);
    assert(holds(state.clusters, id));
    assert(cluster_of(after.clusters, id) == after.clusters[0]);
    assert(after_score.similar == before_score.similar && after_score.params
        >= before_score.params);
    assert forall|j: int|
        0 <= j < ids.len() && j != k && holds(after.clusters, #[trigger] ids[j]) implies if j < k {
        beats(score_in(after.clusters, ids[k], query), score_in(after.clusters, ids[j], query))
    } else {
        !beats(score_in(after.clusters, ids[j], query), score_in(after.clusters, ids[k], query))
    } by {
        assert(holds(state.clusters, ids[j]));
    }
    assert(is_best(after.clusters, ids, query, k));
    best_is_unique(
        after.clusters,
        ids,
        query,
        k,
        choose|k: int| is_best(after.clusters, ids, query, k),
    );
}

proof fn a_line_joins_its_own_cluster(state: DrainView, tokens: Seq<Seq<char>>)
    requires
        state.consistent(),
        state.fits(tokens),
        tokens.len() > 0,
        state.home(tokens) is None,
        state.config.sim_th.reached(agreements(tokens, tokens, state.param()), tokens.len()),
    ensures
        state.after_training(tokens).home(tokens) == Some(
            state.after_training(tokens).clusters[0].id,
        ),
{
    let after = state.after_training(tokens);
    let rules = state.config.rules();
    let th = state.config.sim_th;
    let id = (state.created + 1) as usize;
    let cluster = after.clusters[0];
    let query = Query { tokens, param: state.param(), include_params: false };
    let own = agreements(tokens, tokens, state.param());
    let old_ids = state.candidates(tokens);
    let ids = after.candidates(tokens);
    let last = ids.len() - 1;
    state.training_keeps_consistent(tokens);
    assert(!holds(state.clusters, id));
    adding(state.clusters, state.limit, cluster);
    filing(state.tree, rules, tokens, id, state.clusters);
    found_at(after.clusters, 0);
    assert(ids[last] == id);
    assert(score_in(after.clusters, id, query).similar == own);
    assert forall|j: int| 0 <= j < last && holds(after.clusters, #[trigger] ids[j]) implies beats(
        score_in(after.clusters, ids[last], query),
        score_in(after.clusters, ids[j], query),
    ) by {
        let other = ids[j];
        let leaf = leaf_of(after.tree, rules, tokens)->0;
        assert(state.tree.contains_key(leaf));
        live_ids_are_ids(old_ids, state.clusters);
        assert(live_ids(old_ids, state.clusters)[j] == other);
        let m = choose|m: int| 0 <= m < old_ids.len() && old_ids[m] == other;
        assert(old_ids.contains(other));
        assert(1 <= state.tree[leaf][m] <= state.created);
        a_new_cluster_is_needed(state, tokens, m);
        let similar = score_in(state.clusters, other, query).similar;
        assert(similar < own) by (nonlinear_arith)
            requires
                similar * th.denominator < own * th.denominator,
        ;
    }
    assert(is_best(after.clusters, ids, query, last));
    best_is_unique(
        after.clusters,
        ids,
        query,
        last,
        choose|k: int| is_best(after.clusters, ids, query, k),
    );
}

/// A line goes to a cluster that has enough in common with it, and no cluster that
/// the tree offers has more: as many tokens the same at most, and with as many no
/// more places for any token.
pub proof fn a_line_joins_the_closest_cluster(state: DrainView, tokens: Seq<Seq<char>>, k: int)
    requires
        state.home(tokens) is Some,
        0 <= k < state.candidates(tokens).len(),
        holds(state.clusters, state.candidates(tokens)[k]),
    ensures
        ({
            let home = cluster_of(state.clusters, state.home(tokens)->0).template;
            let other = cluster_of(state.clusters, state.candidates(tokens)[k]).template;
            let param = state.param();
            let similar = agreements(home, tokens, param);
            &&& state.config.sim_th.reached(similar, tokens.len())
            &&& similar >= agreements(other, tokens, param)
            &&& similar == agreements(other, tokens, param) ==> occurrences(home, param)
                >= occurrences(other, param)
        }),
{
    let query = Query { tokens, param: state.param(), include_params: false };
    let best = choose|i: int| is_best(state.clusters, state.candidates(tokens), query, i);
    assert(is_best(state.clusters, state.candidates(tokens), query, best));
}

/// A line gets a cluster of its own only where none that the tree offers has enough
/// in common with it.
pub proof fn a_new_cluster_is_needed(state: DrainView, tokens: Seq<Seq<char>>, k: int)
    requires
        state.home(tokens) is None,
        tokens.len() > 0,
        0 <= k < state.candidates(tokens).len(),
        holds(state.clusters, state.candidates(tokens)[k]),
    ensures
        !state.config.sim_th.reached(
            agreements(
                cluster_of(state.clusters, state.candidates(tokens)[k]).template,
                tokens,
                state.param(),
            ),
            tokens.len(),
        ),
{
    let th = state.config.sim_th;
    let ids = state.candidates(tokens);
    let query = Query { tokens, param: state.param(), include_params: false };
    best_exists(state.clusters, ids, query, k);
    let best = choose|i: int| is_best(state.clusters, ids, query, i);
    let top = score_in(state.clusters, ids[best], query).similar;
    let similar = score_in(state.clusters, ids[k], query).similar;
    assert(similar <= top);
    assert(similar * th.denominator <= top * th.denominator) by (nonlinear_arith)
        requires
            similar <= top,
    ;
}

/// A line without tokens gets a cluster of its own, every time.
pub proof fn an_empty_line_gets_its_own_cluster(state: DrainView)
    ensures
        state.home(Seq::empty()) is None,
{
}

/// No node of the tree below the root has more children than the limit allows, and
/// none lies lower than the last layer.
pub proof fn the_tree_keeps_to_its_limits(state: DrainView, path: Path)
    requires
        state.consistent(),
        path.len() > 0,
        state.tree.contains_key(path),
    ensures
        state.config.max_children > 0 ==> child_keys(state.tree, path).len()
            <= state.config.max_children,
        state.config.max_node_depth > 0 ==> path.len() <= state.config.max_node_depth,
{
    let keys = child_keys(state.tree, path);
    assert(keys.finite());
    assert(state.config.max_children > 0 ==> keys.insert(state.param()).len()
        <= state.config.max_children);
}

/// To look up a line makes no cluster and changes none: the tree and the counts
/// stay as they are, and the same clusters are kept. For a line with tokens not
/// even their order changes.
pub proof fn a_match_changes_no_cluster(state: DrainView, tokens: Seq<Seq<char>>)
    requires
        state.consistent(),
    ensures
        state.after_matching(tokens) == (DrainView {
            clusters: state.after_matching(tokens).clusters,
            ..state
        }),
        tokens.len() > 0 ==> state.after_matching(tokens) == state,
        forall|id: usize| #[trigger]
            holds(state.clusters, id) <==> holds(state.after_matching(tokens).clusters, id),
        forall|id: usize| #[trigger]
            holds(state.clusters, id) ==> cluster_of(state.after_matching(tokens).clusters, id)
                == cluster_of(state.clusters, id),
{
    if tokens.len() == 0 && state.perfect_match(tokens) is Some {
        let id = state.candidates(tokens)[0];
        let at = position(state.clusters, id);
        assert(state.clusters[at].id == id);
        using(state.clusters, id, cluster_of(state.clusters, id));
    }
}

/// To look a line up twice gives the same cluster.
pub proof fn a_match_can_be_repeated(state: DrainView, tokens: Seq<Seq<char>>)
    requires
        state.consistent(),
    ensures
        state.after_matching(tokens).perfect_match(tokens) == state.perfect_match(tokens),
{
    a_match_changes_no_cluster(state, tokens);
    if tokens.len() == 0 && state.perfect_match(tokens) is Some {
        let id = state.candidates(tokens)[0];
        assert(holds(state.clusters, id));
    }
}

/// To list the clusters twice gives them in opposite orders, and leaves
/// everything as it was.
pub proof fn listing_twice_restores_the_order(state: DrainView)
    ensures
        state.after_listing().after_listing() == state,
{
    assert(state.clusters.reverse().reverse() =~= state.clusters);
}

/// A new cluster has an identifier that no cluster has had.
pub proof fn a_new_cluster_has_a_new_id(state: DrainView, tokens: Seq<Seq<char>>)
    requires
        state.consistent(),
        state.fits(tokens),
        state.home(tokens) is None,
    ensures
        state.after_training(tokens).clusters[0].id == state.created + 1,
        state.after_training(tokens).created == state.created + 1,
        !holds(state.clusters, state.after_training(tokens).clusters[0].id),
{
}

/// To take in a line leaves the clusters of other lines as they are, but for the
/// one that a new cluster pushes out.
pub proof fn training_keeps_the_other_clusters(
    state: DrainView,
    tokens: Seq<Seq<char>>,
    id: usize,
)
    requires
        state.consistent(),
        state.fits(tokens),
        holds(state.clusters, id),
        id != state.after_training(tokens).clusters[0].id,
        state.home(tokens) is None && state.clusters.len() == state.limit ==> id
            != state.clusters.last().id,
    ensures
        holds(state.after_training(tokens).clusters, id),
        cluster_of(state.after_training(tokens).clusters, id) == cluster_of(state.clusters, id),
{
    let after = state.after_training(tokens);
    let cluster = after.clusters[0];
    state.best_is_kept(tokens, state.config.sim_th, false);
    match state.home(tokens) {
        Some(home) => {
            using(state.clusters, home, cluster);
        },
        None => {
            assert(!holds(state.clusters, cluster.id));
            adding(state.clusters, state.limit, cluster);
            let at = position(state.clusters, id);
            assert(state.clusters[at].id == id);
            assert(after.clusters[at + 1] == state.clusters[at]);
        },
    }
}

/// A template never becomes narrower: what it fitted, it fits after any line.
pub proof fn a_template_keeps_its_lines(
    template: Seq<Seq<char>>,
    tokens: Seq<Seq<char>>,
    earlier: Seq<Seq<char>>,
    param: Seq<char>,
)
    requires
        template.len() == tokens.len(),
        covers(template, earlier, param),
    ensures
        covers(merged(template, tokens, param), earlier, param),
{
}

/// A line that a template fits leaves it as it is.
pub proof fn a_fitting_line_changes_no_template(
    template: Seq<Seq<char>>,
    tokens: Seq<Seq<char>>,
    param: Seq<char>,
)
    requires
        covers(template, tokens, param),
    ensures
        merged(template, tokens, param) == template,
{
    assert(merged(template, tokens, param) =~= template);
}

/// A template with the raw variables filled in, in order, where it stands for any
/// token.
pub open spec fn filled(
    template: Seq<Seq<char>>,
    variables: Seq<VariableView>,
    param: Seq<char>,
) -> Seq<Seq<char>>
    decreases template.len(),
{
    if template.len() == 0 {
        Seq::empty()
    } else if template.last() == param {
        filled(template.drop_last(), variables.drop_last(), param).push(variables.last().raw)
    } else {
        filled(template.drop_last(), variables, param).push(template.last())
    }
}

/// The template and the variables of a line give its tokens back.
pub proof fn variables_restore_the_line(
    template: Seq<Seq<char>>,
    tokens: Seq<Seq<char>>,
    param: Seq<char>,
)
    requires
        covers(template, tokens, param),
    ensures
        filled(template, variables_of(template, tokens, param), param) == tokens,
        variables_of(template, tokens, param).len() == occurrences(template, param),
    decreases template.len(),
{
    let variables = variables_of(template, tokens, param);
    if template.len() > 0 {
        let front = template.drop_last();
        let front_tokens = tokens.drop_last();
        let front_variables = variables_of(front, front_tokens, param);
        let (last, last_token) = (template.last(), tokens.last());
        assert(last == param || last == last_token) by {
            assert(template[template.len() - 1] == last);
        }
        assert(covers(front, front_tokens, param)) by {
            assert forall|i: int| 0 <= i < front.len() implies #[trigger] front[i] == param
                || front[i] == front_tokens[i] by {
                assert(front[i] == template[i]);
            }
        }
        variables_restore_the_line(front, front_tokens, param);
        assert(tokens == front_tokens.push(last_token));
        if last == param {
            assert(variables.drop_last() == front_variables);
            assert(variables.last().raw == last_token);
            assert(filled(template, variables, param) == filled(
                front,
                front_variables,
                param,
            ).push(last_token));
        } else {
            assert(variables == front_variables);
            assert(filled(template, variables, param) == filled(
                front,
                front_variables,
                param,
            ).push(last_token));
        }
    } else {
        assert(filled(template, variables, param) == tokens);
    }
}

/// What is handed out as the template of a line is the template's tokens, and
/// comes apart into them again. With the variables filled in it comes apart into
/// the tokens of the line.
pub proof fn a_handed_out_template_reads_back(
    state: DrainView,
    line: Seq<char>,
    variables: Seq<VariableView>,
)
    requires
        state.consistent(),
        is_word(state.param()),
        state.well_worded(),
        variables == variables_of(
            state.after_training(state.tokens(line)).clusters[0].template,
            state.tokens(line),
            state.param(),
        ),
    ensures
        words(joined(state.after_training(state.tokens(line)).clusters[0].template))
            == state.after_training(state.tokens(line)).clusters[0].template,
        words(
            joined(
                filled(
                    state.after_training(state.tokens(line)).clusters[0].template,
                    variables,
                    state.param(),
                ),
            ),
        ) == state.tokens(line),
{
    let tokens = state.tokens(line);
    let after = state.after_training(tokens);
    tokens_are_words(line, texts(state.config.extra_delimiters@));
    state.training_keeps_well_worded(tokens);
    state.training_keeps_the_length(tokens);
    assert(all_words(after.clusters[0].template));
    joining_loses_nothing(after.clusters[0].template);
    a_trained_cluster_fits_its_line(state, tokens);
    variables_restore_the_line(after.clusters[0].template, tokens, state.param());
    joining_loses_nothing(tokens);
}

/// Every line is counted in one cluster: to take one in adds one line, and takes
/// away only those of a cluster that is pushed out.
pub proof fn every_line_is_counted(state: DrainView, tokens: Seq<Seq<char>>)
    requires
        state.consistent(),
    ensures
        lines_in(state.after_training(tokens).clusters) == lines_in(state.clusters) + 1 - if state.home(
            tokens,
        ) is None && state.clusters.len() == state.limit {
            state.clusters.last().size
        } else {
            0
        },
{
    let after = state.after_training(tokens);
    state.best_is_kept(tokens, state.config.sim_th, false);
    match state.home(tokens) {
        Some(id) => {
            using_counts(state.clusters, id, after.clusters[0]);
        },
        None => {
            adding_counts(state.clusters, state.limit, after.clusters[0]);
        },
    }
}

/// It makes no difference to a template in which order two lines come.
pub proof fn merging_is_commutative(a: Seq<Seq<char>>, b: Seq<Seq<char>>, param: Seq<char>)
    requires
        a.len() == b.len(),
    ensures
        merged(a, b, param) == merged(b, a, param),
{
    assert(merged(a, b, param) =~= merged(b, a, param));
}

/// A template that takes in itself stays as it is.
pub proof fn merging_is_idempotent(a: Seq<Seq<char>>, param: Seq<char>)
    ensures
        merged(a, a, param) == a,
{
    assert(merged(a, a, param) =~= a);
}

/// To search for a line with tokens is to look for the cluster that it belongs to,
/// for every threshold and whether or not places for any token count. It changes
/// nothing.
pub proof fn a_search_finds_the_best_cluster(
    state: DrainView,
    tokens: Seq<Seq<char>>,
    sim_th: Ratio,
    include_params: bool,
)
    requires
        tokens.len() > 0,
    ensures
        state.search(tokens, sim_th, include_params) == state.best_cluster(
            tokens,
            sim_th,
            include_params,
        ),
        state.after_matching(tokens) == state,
{
}

/// What a `Drain` makes of a tree when it files a cluster there depends on its
/// settings and its clusters alone, and is what the settings and the clusters give
/// by themselves. In a well grown tree the cluster finds a place.
pub proof fn filing_goes_by_settings_and_clusters(
    state: DrainView,
    tree: Tree,
    tokens: Seq<Seq<char>>,
    id: usize,
)
    ensures
        state.filed_in(tree, tokens, id) == filed(
            tree,
            (Rules {
                depth: state.config.max_node_depth as nat,
                children: state.config.max_children as nat,
                param: state.config.param_string@,
            }),
            tokens,
            id,
            state.clusters,
        ),
        well_grown(tree, state.config.rules()) && state.config.max_children >= 1
            ==> state.filed_in(tree, tokens, id) is Some,
{
    if well_grown(tree, state.config.rules()) {
        filing(tree, state.config.rules(), tokens, id, state.clusters);
    }
}

} // verus!
