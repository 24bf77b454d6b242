//! The state of the grouping of log lines, and what each operation makes of it.

use crate::extraction::classify::var_type;
use crate::extraction::cluster::{
    added, adding, adding_counts, cluster_of, distinct_ids, found_at, holds, lines_in,
    made_of_words, position, reversing_counts, used, using, using_counts, ClusterView,
};
use crate::extraction::config::{Config, Ratio};
use crate::extraction::growth::{descent_arrives, filing, live_ids_are_ids, well_grown};
use crate::extraction::matching::{best_match, Query};
use crate::extraction::tree::{
    child_keys, empty_tree, filed, fileable, layer, leaf_of, live_ids, Path, Tree,
};
use crate::text::{decimal, decimal_is_injective, texts, tokens_of};
use crate::types::VarType;
use crate::words::{all_words, is_word};
use vstd::prelude::*;

verus! {

/// What is known about the log lines seen so far.
pub struct DrainView {
    /// How lines are grouped.
    pub config: Config,
    /// The prefix tree.
    pub tree: Tree,
    /// The clusters that are kept, the most recently used one first.
    pub clusters: Seq<ClusterView>,
    /// How many clusters are kept at most.
    pub limit: nat,
    /// How many clusters there have been.
    pub created: nat,
    /// How many lines have been taken in.
    pub trained: nat,
}

/// A variable part of a line, and what it looks like.
pub struct VariableView {
    pub raw: Seq<char>,
    pub var_type: VarType,
}

/// A template with the tokens that it has in common with a line, and with
/// `param` in the other places.
pub open spec fn merged(
    template: Seq<Seq<char>>,
    tokens: Seq<Seq<char>>,
    param: Seq<char>,
) -> Seq<Seq<char>> {
    Seq::new(
        template.len(),
        |i: int|
            if template[i] == tokens[i] {
                template[i]
            } else {
                param
            },
    )
}

/// The tokens of a line where the template stands for any token, in order.
pub open spec fn variables_of(
    template: Seq<Seq<char>>,
    tokens: Seq<Seq<char>>,
    param: Seq<char>,
) -> Seq<VariableView>
    decreases template.len(),
{
    if template.len() == 0 {
        Seq::empty()
    } else {
        let front = variables_of(template.drop_last(), tokens.drop_last(), param);
        if template.last() == param {
            front.push(VariableView { raw: tokens.last(), var_type: var_type(tokens.last()) })
        } else {
            front
        }
    }
}

impl DrainView {
    /// The state before any line.
    pub open spec fn initial(config: Config) -> DrainView {
        DrainView {
            config: Config {
                max_node_depth: (config.log_cluster_depth - 2) as usize,
                ..config
            },
            tree: empty_tree(),
            clusters: Seq::empty(),
            limit: if config.max_clusters == 0 {
                usize::MAX as nat
            } else {
                config.max_clusters as nat
            },
            created: 0,
            trained: 0,
        }
    }

    /// The tokens of a line.
    pub open spec fn tokens(self, line: Seq<char>) -> Seq<Seq<char>> {
        tokens_of(line, texts(self.config.extra_delimiters@))
    }

    /// The token that stands for any token.
    pub open spec fn param(self) -> Seq<char> {
        self.config.param_string@
    }

    /// The clusters that the tree offers for a line.
    pub open spec fn candidates(self, tokens: Seq<Seq<char>>) -> Seq<usize> {
        match leaf_of(self.tree, self.config.rules(), tokens) {
            Some(leaf) => self.tree[leaf],
            None => Seq::empty(),
        }
    }

    /// The cluster that a line belongs to.
    pub open spec fn best(
        self,
        tokens: Seq<Seq<char>>,
        sim_th: Ratio,
        include_params: bool,
    ) -> Option<usize> {
        best_match(
            self.clusters,
            self.candidates(tokens),
            Query { tokens, param: self.param(), include_params },
            sim_th,
        )
    }

    /// The cluster that takes in a line, where there is one already.
    pub open spec fn home(self, tokens: Seq<Seq<char>>) -> Option<usize> {
        self.best(tokens, self.config.sim_th, false)
    }

    /// A tree with a cluster for a line filed in it.
    pub open spec fn filed_in(self, tree: Tree, tokens: Seq<Seq<char>>, id: usize) -> Option<
        Tree,
    > {
        filed(tree, self.config.rules(), tokens, id, self.clusters)
    }

    /// The tree with a new cluster for a line.
    pub open spec fn tree_with(self, tokens: Seq<Seq<char>>) -> Option<Tree> {
        self.filed_in(self.tree, tokens, (self.created + 1) as usize)
    }

    /// Whether a line can be taken in: its cluster can count one line more, or
    /// there is another number and a place in the tree for a new one.
    pub open spec fn fits(self, tokens: Seq<Seq<char>>) -> bool {
        match self.home(tokens) {
            Some(id) => cluster_of(self.clusters, id).size < usize::MAX,
            None => self.created < usize::MAX && fileable(
                self.tree,
                self.config.rules(),
                tokens,
            ),
        }
    }

    /// The state after a line has been taken in. Its cluster comes to the front:
    /// the one it belongs to, with a template that fits the line too and one line
    /// more, or else a new one.
    pub open spec fn after_training(self, tokens: Seq<Seq<char>>) -> DrainView {
        match self.home(tokens) {
            Some(id) => {
                let before = cluster_of(self.clusters, id);
                let after = ClusterView {
                    template: merged(before.template, tokens, self.param()),
                    id,
                    size: before.size + 1,
                };
                DrainView {
                    clusters: used(self.clusters, id, after),
                    trained: self.trained + 1,
                    ..self
                }
            },
            None => {
                let cluster = ClusterView {
                    template: tokens,
                    id: (self.created + 1) as usize,
                    size: 1,
                };
                DrainView {
                    tree: self.tree_with(tokens)->0,
                    clusters: added(self.clusters, self.limit, cluster),
                    created: self.created + 1,
                    trained: self.trained + 1,
                    ..self
                }
            },
        }
    }

    /// The cluster that a line belongs to, as it is.
    pub open spec fn best_cluster(
        self,
        tokens: Seq<Seq<char>>,
        sim_th: Ratio,
        include_params: bool,
    ) -> Option<ClusterView> {
        match self.best(tokens, sim_th, include_params) {
            Some(id) => Some(cluster_of(self.clusters, id)),
            None => None,
        }
    }

    /// The cluster that is found for a line: the one it belongs to. For a line
    /// without tokens it is the first one that was made for such a line, while it
    /// is kept.
    pub open spec fn search(
        self,
        tokens: Seq<Seq<char>>,
        sim_th: Ratio,
        include_params: bool,
    ) -> Option<ClusterView> {
        if tokens.len() == 0 {
            let ids = self.candidates(tokens);
            if ids.len() > 0 && holds(self.clusters, ids[0]) {
                Some(cluster_of(self.clusters, ids[0]))
            } else {
                None
            }
        } else {
            self.best_cluster(tokens, sim_th, include_params)
        }
    }

    /// The cluster whose template a line has throughout.
    pub open spec fn perfect_match(self, tokens: Seq<Seq<char>>) -> Option<ClusterView> {
        self.search(tokens, Ratio { numerator: 1, denominator: 1 }, true)
    }

    /// The state after a line has been looked up. To find the cluster of the
    /// lines without tokens is to use it.
    pub open spec fn after_matching(self, tokens: Seq<Seq<char>>) -> DrainView {
        match self.perfect_match(tokens) {
            Some(cluster) if tokens.len() == 0 => DrainView {
                clusters: used(self.clusters, cluster.id, cluster),
                ..self
            },
            _ => self,
        }
    }

    /// The state after all clusters have been listed: each has been used in turn.
    pub open spec fn after_listing(self) -> DrainView {
        DrainView { clusters: self.clusters.reverse(), ..self }
    }

    /// The tree is one that lines have grown.
    pub open spec fn tree_is_well_grown(self) -> bool {
        well_grown(self.tree, self.config.rules())
    }

    /// What is filed in the tree are clusters that there have been, and those that
    /// are kept are filed under their numbers of tokens.
    pub open spec fn tree_is_filed(self) -> bool {
        forall|path: Path, i: int|
            #![trigger self.tree[path][i]]
            self.tree.contains_key(path) && 0 <= i < self.tree[path].len() ==> {
                let id = self.tree[path][i];
                &&& 1 <= id <= self.created
                &&& path.len() > 0
                &&& holds(self.clusters, id) ==> path[0] == decimal(
                    cluster_of(self.clusters, id).template.len(),
                )
            }
    }

    /// The clusters that are kept are different ones, each with at least one line:
    /// all that there have been, or as many as can be kept. While none has been
    /// pushed out, every line is counted in them.
    pub open spec fn clusters_are_sound(self) -> bool {
        &&& distinct_ids(self.clusters)
        &&& self.clusters.len() == if self.created < self.limit {
            self.created
        } else {
            self.limit
        }
        &&& self.created <= self.limit ==> lines_in(self.clusters) == self.trained
        &&& forall|i: int|
            0 <= i < self.clusters.len() ==> {
                let cluster = #[trigger] self.clusters[i];
                1 <= cluster.id <= self.created && 1 <= cluster.size <= self.trained
            }
    }

    /// What holds between any two operations.
    pub open spec fn consistent(self) -> bool {
        &&& self.limit > 0
        &&& self.created <= self.trained
        &&& self.tree_is_well_grown()
        &&& self.tree_is_filed()
        &&& self.clusters_are_sound()
    }

    /// The templates are made of words, where the token that stands for any token
    /// is a word.
    pub open spec fn well_worded(self) -> bool {
        is_word(self.param()) ==> made_of_words(self.clusters)
    }
}

impl DrainView {
    /// The state before any line is consistent.
    pub proof fn initial_is_consistent(config: Config)
        ensures
            DrainView::initial(config).consistent(),
    {
        let state = DrainView::initial(config);
        let root: Path = Seq::empty();
        assert forall|path: Path| #[trigger] child_keys(state.tree, path)
            == Set::<Seq<char>>::empty() by {
            assert forall|key: Seq<char>| !state.tree.contains_key(#[trigger] path.push(key)) by {
                assert(path.push(key).len() > 0);
            }
            assert(child_keys(state.tree, path) =~= Set::empty());
        }
    }

    /// The clusters that the tree offers for a line have as many tokens as it.
    pub proof fn candidates_have_the_length(self, tokens: Seq<Seq<char>>)
        requires
            self.consistent(),
        ensures
            forall|k: int|
                0 <= k < self.candidates(tokens).len() && holds(
                    self.clusters,
                    #[trigger] self.candidates(tokens)[k],
                ) ==> cluster_of(self.clusters, self.candidates(tokens)[k]).template.len()
                    == tokens.len(),
    {
        if leaf_of(self.tree, self.config.rules(), tokens) is Some {
            let leaf = leaf_of(self.tree, self.config.rules(), tokens)->0;
            descent_arrives(self.tree, self.config.rules(), tokens, layer(tokens.len()), 1);
            assert forall|k: int|
                0 <= k < self.candidates(tokens).len() && holds(
                    self.clusters,
                    #[trigger] self.candidates(tokens)[k],
                ) implies cluster_of(self.clusters, self.candidates(tokens)[k]).template.len()
                == tokens.len() by {
                let id = self.tree[leaf][k];
                decimal_is_injective(
                    cluster_of(self.clusters, id).template.len(),
                    tokens.len(),
                );
            }
        }
    }

    /// A cluster that a line belongs to is kept, is one that the tree offers, and
    /// has as many tokens as the line.
    pub proof fn best_is_kept(self, tokens: Seq<Seq<char>>, sim_th: Ratio, include_params: bool)
        requires
            self.consistent(),
        ensures
            self.best(tokens, sim_th, include_params) matches Some(id) ==> {
                &&& holds(self.clusters, id)
                &&& cluster_of(self.clusters, id).id == id
                &&& cluster_of(self.clusters, id).template.len() == tokens.len()
                &&& tokens.len() > 0
            },
    {
        self.candidates_have_the_length(tokens);
        if self.best(tokens, sim_th, include_params) is Some {
            let id = self.best(tokens, sim_th, include_params)->0;
            let at = position(self.clusters, id);
            assert(self.clusters[at].id == id);
        }
    }

    /// With room for at least one child, every line fits, until no count can hold
    /// the number of lines.
    pub proof fn every_line_fits(self, tokens: Seq<Seq<char>>)
        requires
            self.consistent(),
            self.config.max_children > 0,
            self.trained < usize::MAX,
        ensures
            self.fits(tokens),
    {
        self.best_is_kept(tokens, self.config.sim_th, false);
        filing(
            self.tree,
            self.config.rules(),
            tokens,
            (self.created + 1) as usize,
            self.clusters,
        );
    }

    /// A state stays consistent when a line is taken in.
    pub proof fn training_keeps_consistent(self, tokens: Seq<Seq<char>>)
        requires
            self.consistent(),
            self.fits(tokens),
        ensures
            self.after_training(tokens).consistent(),
    {
        let after = self.after_training(tokens);
        self.best_is_kept(tokens, self.config.sim_th, false);
        match self.home(tokens) {
            Some(id) => {
                let cluster = after.clusters[0];
                using(self.clusters, id, cluster);
                using_counts(self.clusters, id, cluster);
                assert forall|i: int| 0 <= i < after.clusters.len() implies {
                    let c = #[trigger] after.clusters[i];
                    1 <= c.id <= after.created && 1 <= c.size <= after.trained
                } by {
                    if i == 0 {
                        let at = position(self.clusters, id);
                        assert(self.clusters[at].id == id);
                    } else {
                        assert(self.clusters.contains(after.clusters[i]));
                    }
                }
                assert forall|path: Path, i: int|
                    #![trigger after.tree[path][i]]
                    after.tree.contains_key(path) && 0 <= i < after.tree[path].len() implies {
                    let filed_id = after.tree[path][i];
                    &&& 1 <= filed_id <= after.created
                    &&& path.len() > 0
                    &&& holds(after.clusters, filed_id) ==> path[0] == decimal(
                        cluster_of(after.clusters, filed_id).template.len(),
                    )
                } by {
                    let filed_id = self.tree[path][i];
                    assert(holds(after.clusters, filed_id) <==> holds(self.clusters, filed_id));
                }
            },
            None => {
                let id = (self.created + 1) as usize;
                let cluster = after.clusters[0];
                assert(!holds(self.clusters, id));
                adding(self.clusters, self.limit, cluster);
                adding_counts(self.clusters, self.limit, cluster);
                filing(self.tree, self.config.rules(), tokens, id, self.clusters);
                let leaf = leaf_of(after.tree, self.config.rules(), tokens)->0;
                assert forall|i: int| 0 <= i < after.clusters.len() implies {
                    let c = #[trigger] after.clusters[i];
                    1 <= c.id <= after.created && 1 <= c.size <= after.trained
                } by {
                    if i > 0 {
                        assert(after.clusters[i] == self.clusters[i - 1]);
                    }
                }
                assert forall|path: Path, i: int|
                    #![trigger after.tree[path][i]]
                    after.tree.contains_key(path) && 0 <= i < after.tree[path].len() implies {
                    let filed_id = after.tree[path][i];
                    &&& 1 <= filed_id <= after.created
                    &&& path.len() > 0
                    &&& holds(after.clusters, filed_id) ==> path[0] == decimal(
                        cluster_of(after.clusters, filed_id).template.len(),
                    )
                } by {
                    let filed_id = after.tree[path][i];
                    if path == leaf && i == after.tree[leaf].len() - 1 {
                        assert(filed_id == id);
                    } else {
                        assert(self.tree.contains_key(path));
                        let old_ids = self.tree[path];
                        if path == leaf && tokens.len() > 0 {
                            live_ids_are_ids(old_ids, self.clusters);
                            assert(live_ids(old_ids, self.clusters)[i] == filed_id);
                            assert(old_ids.contains(filed_id));
                        } else {
                            assert(old_ids[i] == filed_id);
                        }
                        let j = choose|j: int| 0 <= j < old_ids.len() && old_ids[j] == filed_id;
                        assert(self.tree[path][j] == filed_id);
                    }
                }
            },
        }
    }

    /// Templates stay made of words when a line of words is taken in.
    pub proof fn training_keeps_well_worded(self, tokens: Seq<Seq<char>>)
        requires
            self.consistent(),
            self.well_worded(),
            all_words(tokens),
        ensures
            self.after_training(tokens).well_worded(),
    {
        let after = self.after_training(tokens);
        self.best_is_kept(tokens, self.config.sim_th, false);
        if is_word(self.param()) {
            assert forall|i: int| 0 <= i < after.clusters.len() implies all_words(
                (#[trigger] after.clusters[i]).template,
            ) by {
                match self.home(tokens) {
                    Some(id) => {
                        if i == 0 {
                            let at = position(self.clusters, id);
                            assert(self.clusters[at].id == id);
                            assert(all_words(self.clusters[at].template));
                        } else {
                            using(self.clusters, id, after.clusters[0]);
                            assert(self.clusters.contains(after.clusters[i]));
                        }
                    },
                    None => {
                        if i > 0 {
                            assert(after.clusters[i] == self.clusters[i - 1]);
                        }
                    },
                }
            }
        }
    }

    /// The same clusters in another order make a consistent state too.
    proof fn reordering_keeps_consistent(self, other: DrainView)
        requires
            self.consistent(),
            other == (DrainView { clusters: other.clusters, ..self }),
            distinct_ids(other.clusters),
            other.clusters.len() == self.clusters.len(),
            lines_in(other.clusters) == lines_in(self.clusters),
            forall|i: int|
                0 <= i < other.clusters.len() ==> self.clusters.contains(
                    #[trigger] other.clusters[i],
                ),
        ensures
            other.consistent(),
            self.well_worded() ==> other.well_worded(),
            forall|id: usize| #[trigger] holds(other.clusters, id) ==> holds(self.clusters, id)
                && cluster_of(other.clusters, id) == cluster_of(self.clusters, id),
    {
        assert forall|id: usize| #[trigger] holds(other.clusters, id) implies holds(
            self.clusters,
            id,
        ) && cluster_of(other.clusters, id) == cluster_of(self.clusters, id) by {
            let i = position(other.clusters, id);
            assert(other.clusters[i].id == id);
            assert(self.clusters.contains(other.clusters[i]));
            let j = choose|j: int| 0 <= j < self.clusters.len() && self.clusters[j] == other.clusters[i];
            found_at(self.clusters, j);
        }
        assert forall|path: Path, i: int|
            #![trigger other.tree[path][i]]
            other.tree.contains_key(path) && 0 <= i < other.tree[path].len() implies {
            let id = other.tree[path][i];
            &&& 1 <= id <= other.created
            &&& path.len() > 0
            &&& holds(other.clusters, id) ==> path[0] == decimal(
                cluster_of(other.clusters, id).template.len(),
            )
        } by {
            let id = self.tree[path][i];
        }
    }

    /// A state stays consistent when its clusters are listed.
    pub proof fn listing_keeps_consistent(self)
        requires
            self.consistent(),
        ensures
            self.after_listing().consistent(),
            self.well_worded() ==> self.after_listing().well_worded(),
            forall|id: usize| #[trigger]
                holds(self.after_listing().clusters, id) ==> holds(self.clusters, id)
                    && cluster_of(self.after_listing().clusters, id) == cluster_of(
                    self.clusters,
                    id,
                ),
    {
        let after = self.after_listing();
        reversing_counts(self.clusters);
        assert forall|i: int| 0 <= i < after.clusters.len() implies self.clusters.contains(
            #[trigger] after.clusters[i],
        ) by {
            assert(after.clusters[i] == self.clusters[self.clusters.len() - 1 - i]);
        }
        assert forall|i: int, j: int| 0 <= i < j < after.clusters.len() implies (
        #[trigger] after.clusters[i]).id != (#[trigger] after.clusters[j]).id by {
            assert(after.clusters[i] == self.clusters[self.clusters.len() - 1 - i]);
            assert(after.clusters[j] == self.clusters[self.clusters.len() - 1 - j]);
        }
        self.reordering_keeps_consistent(after);
    }

    /// A state stays consistent when a line is looked up.
    pub proof fn matching_keeps_consistent(self, tokens: Seq<Seq<char>>)
        requires
            self.consistent(),
        ensures
            self.after_matching(tokens).consistent(),
            self.well_worded() ==> self.after_matching(tokens).well_worded(),
    {
        let after = self.after_matching(tokens);
        if tokens.len() == 0 && self.perfect_match(tokens) is Some {
            let id = self.candidates(tokens)[0];
            let at = position(self.clusters, id);
            let cluster = cluster_of(self.clusters, id);
            assert(self.clusters[at].id == id);
            using(self.clusters, id, cluster);
            using_counts(self.clusters, id, cluster);
            assert forall|i: int| 0 <= i < after.clusters.len() implies self.clusters.contains(
                #[trigger] after.clusters[i],
            ) by {
                if i == 0 {
                    assert(after.clusters[0] == self.clusters[at]);
                }
            }
            self.reordering_keeps_consistent(after);
        }
    }

    /// The cluster that takes in a line has as many tokens as it.
    pub proof fn training_keeps_the_length(self, tokens: Seq<Seq<char>>)
        requires
            self.consistent(),
        ensures
            self.after_training(tokens).clusters.len() > 0,
            self.after_training(tokens).clusters[0].template.len() == tokens.len(),
    {
        self.best_is_kept(tokens, self.config.sim_th, false);
    }
}

} // verus!
