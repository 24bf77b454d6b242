//! What holds after any number of calls, in any order.

use crate::extraction::cluster::{
    adding, cluster_of, found_at, holds, lines_in, made_of_words, using,
};
use crate::extraction::config::Config;
use crate::extraction::keeping::reversing_keeps;
use crate::extraction::laws::a_match_changes_no_cluster;
use crate::extraction::matching::covers;
use crate::extraction::state::DrainView;
use crate::text::texts;
use crate::words::{is_word, tokens_are_words};
use vstd::prelude::*;

verus! {

/// A call that has been made.
pub enum Step {
    /// The line has been taken in.
    Train(Seq<char>),
    /// The line has been looked up.
    Match(Seq<char>),
    /// The clusters have been listed.
    List,
}

/// The state after a call.
pub open spec fn after_step(state: DrainView, step: Step) -> DrainView {
    match step {
        Step::Train(line) => state.after_training(state.tokens(line)),
        Step::Match(line) => state.after_matching(state.tokens(line)),
        Step::List => state.after_listing(),
    }
}

/// The state after calls, from the first on.
pub open spec fn after(state: DrainView, steps: Seq<Step>) -> DrainView
    decreases steps.len(),
{
    if steps.len() == 0 {
        state
    } else {
        after_step(after(state, steps.drop_last()), steps.last())
    }
}

/// Whether a call can be made: a line that is to be taken in fits.
pub open spec fn step_fits(state: DrainView, step: Step) -> bool {
    match step {
        Step::Train(line) => state.fits(state.tokens(line)),
        _ => true,
    }
}

/// Whether calls can be made, from the first on.
pub open spec fn steps_fit(state: DrainView, steps: Seq<Step>) -> bool
    decreases steps.len(),
{
    steps.len() == 0 || steps_fit(state, steps.drop_last()) && step_fits(
        after(state, steps.drop_last()),
        steps.last(),
    )
}

/// How many lines the calls have taken in.
pub open spec fn trainings(steps: Seq<Step>) -> nat
    decreases steps.len(),
{
    if steps.len() == 0 {
        0
    } else {
        trainings(steps.drop_last()) + if steps.last() is Train {
            1nat
        } else {
            0nat
        }
    }
}

/// What a template has become: the same tokens, with the one that stands for any
/// token in more places.
pub open spec fn widened(
    before: Seq<Seq<char>>,
    now: Seq<Seq<char>>,
    param: Seq<char>,
) -> bool {
    now.len() == before.len() && forall|i: int|
        0 <= i < now.len() ==> #[trigger] now[i] == before[i] || now[i] == param
}

/// Any calls keep a state consistent and its templates made of words. The settings
/// stay, no identifier is taken back, and every line that is taken in is counted.
pub proof fn any_calls_keep_consistent(state: DrainView, steps: Seq<Step>)
    requires
        state.consistent(),
        steps_fit(state, steps),
    ensures
        after(state, steps).consistent(),
        state.well_worded() ==> after(state, steps).well_worded(),
        after(state, steps).config == state.config,
        after(state, steps).limit == state.limit,
        after(state, steps).created >= state.created,
        state.created <= usize::MAX ==> after(state, steps).created <= usize::MAX,
        after(state, steps).trained == state.trained + trainings(steps),
    decreases steps.len(),
{
    if steps.len() > 0 {
        let before = after(state, steps.drop_last());
        any_calls_keep_consistent(state, steps.drop_last());
        match steps.last() {
            Step::Train(line) => {
                tokens_are_words(line, texts(before.config.extra_delimiters@));
                before.training_keeps_consistent(before.tokens(line));
                if state.well_worded() {
                    before.training_keeps_well_worded(before.tokens(line));
                }
            },
            Step::Match(line) => {
                before.matching_keeps_consistent(before.tokens(line));
            },
            Step::List => {
                before.listing_keeps_consistent();
            },
        }
    }
}

/// After any calls from the start, all clusters that there have been are kept, or as
/// many as the limit allows. While there have been no more than that, every line
/// that was taken in is counted in one of them. The templates are made of words,
/// where the token that stands for any token is a word.
pub proof fn clusters_after_any_calls(config: Config, steps: Seq<Step>)
    requires
        steps_fit(DrainView::initial(config), steps),
    ensures
        ({
            let state = after(DrainView::initial(config), steps);
            &&& state.consistent()
            &&& state.clusters.len() == if state.created < state.limit {
                state.created
            } else {
                state.limit
            }
            &&& state.created <= state.limit ==> lines_in(state.clusters) == trainings(steps)
            &&& is_word(config.param_string@) ==> made_of_words(state.clusters)
        }),
{
    DrainView::initial_is_consistent(config);
    any_calls_keep_consistent(DrainView::initial(config), steps);
}

/// While there have been no more clusters than the limit allows, all of them are
/// kept.
pub proof fn every_cluster_is_kept(config: Config, steps: Seq<Step>)
    requires
        steps_fit(DrainView::initial(config), steps),
        after(DrainView::initial(config), steps).created <= DrainView::initial(config).limit,
    ensures
        forall|id: usize|
            1 <= id <= after(DrainView::initial(config), steps).created ==> #[trigger] holds(
                after(DrainView::initial(config), steps).clusters,
                id,
            ),
    decreases steps.len(),
{
    let start = DrainView::initial(config);
    let now = after(start, steps);
    if steps.len() > 0 {
        let before = after(start, steps.drop_last());
        DrainView::initial_is_consistent(config);
        any_calls_keep_consistent(start, steps.drop_last());
        every_cluster_is_kept(config, steps.drop_last());
        assert forall|id: usize| 1 <= id <= now.created implies #[trigger] holds(
            now.clusters,
            id,
        ) by {
            if id <= before.created {
                assert(holds(before.clusters, id));
            }
            match steps.last() {
                Step::Train(line) => {
                    let tokens = before.tokens(line);
                    let cluster = now.clusters[0];
                    before.best_is_kept(tokens, before.config.sim_th, false);
                    match before.home(tokens) {
                        Some(home) => {
                            using(before.clusters, home, cluster);
                        },
                        None => {
                            assert(!holds(before.clusters, cluster.id));
                            adding(before.clusters, before.limit, cluster);
                        },
                    }
                },
                Step::Match(line) => {
                    a_match_changes_no_cluster(before, before.tokens(line));
                },
                Step::List => {
                    reversing_keeps(before.clusters);
                    assert(holds(before.clusters.reverse(), id));
                },
            }
        }
    }
}

/// Without a limit, which a maximum of 0 stands for, every cluster that there has
/// been is kept.
pub proof fn without_a_limit_every_cluster_is_kept(config: Config, steps: Seq<Step>, id: usize)
    requires
        config.max_clusters == 0,
        steps_fit(DrainView::initial(config), steps),
        1 <= id <= after(DrainView::initial(config), steps).created,
    ensures
        holds(after(DrainView::initial(config), steps).clusters, id),
{
    DrainView::initial_is_consistent(config);
    any_calls_keep_consistent(DrainView::initial(config), steps);
    every_cluster_is_kept(config, steps);
}

/// A call makes no template narrower and no cluster smaller, and brings back none
/// that was pushed out.
proof fn a_call_only_widens(state: DrainView, step: Step, id: usize)
    requires
        state.consistent(),
        step_fits(state, step),
        id <= state.created,
        holds(after_step(state, step).clusters, id),
    ensures
        holds(state.clusters, id),
        widened(
            cluster_of(state.clusters, id).template,
            cluster_of(after_step(state, step).clusters, id).template,
            state.param(),
        ),
        cluster_of(state.clusters, id).size <= cluster_of(
            after_step(state, step).clusters,
            id,
        ).size,
{
    let next = after_step(state, step);
    match step {
        Step::Train(line) => {
            let tokens = state.tokens(line);
            state.best_is_kept(tokens, state.config.sim_th, false);
            match state.home(tokens) {
                Some(home) => {
                    using(state.clusters, home, next.clusters[0]);
                    assert(holds(state.clusters, id));
                },
                None => {
                    assert(!holds(state.clusters, next.clusters[0].id));
                    adding(state.clusters, state.limit, next.clusters[0]);
                },
            }
        },
        Step::Match(line) => {
            a_match_changes_no_cluster(state, state.tokens(line));
            assert(holds(state.clusters, id));
        },
        Step::List => {
            state.listing_keeps_consistent();
        },
    }
}

/// Templates only widen: what a cluster that is still there after any calls had for a
/// template, it has with more places for any token at most. Its size only grows.
pub proof fn templates_only_widen(state: DrainView, steps: Seq<Step>, id: usize)
    requires
        state.consistent(),
        steps_fit(state, steps),
        id <= state.created,
        holds(after(state, steps).clusters, id),
    ensures
        holds(state.clusters, id),
        widened(
            cluster_of(state.clusters, id).template,
            cluster_of(after(state, steps).clusters, id).template,
            state.param(),
        ),
        cluster_of(state.clusters, id).size <= cluster_of(after(state, steps).clusters, id).size,
    decreases steps.len(),
{
    if steps.len() > 0 {
        let front = steps.drop_last();
        let before = after(state, front);
        any_calls_keep_consistent(state, front);
        a_call_only_widens(before, steps.last(), id);
        templates_only_widen(state, front, id);
        let (first, middle) = (
            cluster_of(state.clusters, id).template,
            cluster_of(before.clusters, id).template,
        );
        let last = cluster_of(after(state, steps).clusters, id).template;
        assert forall|i: int| 0 <= i < last.len() implies #[trigger] last[i] == first[i] || last[i]
            == state.param() by {
            assert(middle[i] == first[i] || middle[i] == state.param());
        }
    }
}

/// A line that a cluster's template fits, it fits after any calls.
pub proof fn a_template_keeps_its_lines_for_good(
    state: DrainView,
    steps: Seq<Step>,
    id: usize,
    tokens: Seq<Seq<char>>,
)
    requires
        state.consistent(),
        steps_fit(state, steps),
        id <= state.created,
        holds(after(state, steps).clusters, id),
        covers(cluster_of(state.clusters, id).template, tokens, state.param()),
    ensures
        covers(cluster_of(after(state, steps).clusters, id).template, tokens, state.param()),
{
    templates_only_widen(state, steps, id);
    let before = cluster_of(state.clusters, id).template;
    let now = cluster_of(after(state, steps).clusters, id).template;
    assert forall|i: int| 0 <= i < now.len() implies #[trigger] now[i] == state.param() || now[i]
        == tokens[i] by {
        assert(before[i] == state.param() || before[i] == tokens[i]);
    }
}

/// Lines with different numbers of tokens never get the same identifier, whatever
/// comes between them.
pub proof fn an_identifier_stands_for_one_number_of_tokens(
    state: DrainView,
    line: Seq<char>,
    steps: Seq<Step>,
    later_line: Seq<char>,
)
    requires
        state.consistent(),
        step_fits(state, Step::Train(line)),
        steps_fit(after_step(state, Step::Train(line)), steps),
        step_fits(after(after_step(state, Step::Train(line)), steps), Step::Train(later_line)),
        after_step(
            after(after_step(state, Step::Train(line)), steps),
            Step::Train(later_line),
        ).clusters[0].id == after_step(state, Step::Train(line)).clusters[0].id,
    ensures
        state.tokens(line).len() == state.tokens(later_line).len(),
{
    let tokens = state.tokens(line);
    let middle = state.after_training(tokens);
    let id = middle.clusters[0].id;
    state.training_keeps_consistent(tokens);
    state.training_keeps_the_length(tokens);
    any_calls_keep_consistent(middle, steps);
    let later = after(middle, steps);
    later.best_is_kept(later.tokens(later_line), later.config.sim_th, false);
    found_at(middle.clusters, 0);
    assert(1 <= middle.clusters[0].id <= middle.created);
    templates_only_widen(middle, steps, id);
}

} // verus!
