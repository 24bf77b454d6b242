//! Grouping log lines into clusters, each with a template that its lines share.

pub use crate::extraction::classify::classify_variable;
pub use crate::extraction::cluster::LogCluster;
pub use crate::extraction::config::{Config, Ratio};

use crate::extraction::cache::LogClusterCache;
use crate::extraction::classify::{plain_text, plain_var_type};
use crate::extraction::cluster::{cluster_views, copy_strings, found_at, holds, position};
use crate::extraction::matching::fast_match_id;
use crate::extraction::state::{merged, variables_of, DrainView, VariableView};
use crate::extraction::tree::{fileable, PrefixTree};
use crate::text::{delimiters_spaced, joined, replace, split_words, texts, trim};
use crate::types::{PatternID, VarType};
use crate::words::{all_words, contains_text, tokens_are_words, tokens_contain_no_delimiter};
use vstd::prelude::*;

verus! {

/// A typed variable extracted from a log line.
#[derive(Debug, Clone, PartialEq)]
pub struct TypedVariable {
    pub raw: String,
    pub var_type: VarType,
}

impl View for TypedVariable {
    type V = VariableView;

    open spec fn view(&self) -> VariableView {
        VariableView { raw: self.raw@, var_type: self.var_type }
    }
}

/// What each of the variables is.
pub open spec fn variable_views(variables: Seq<TypedVariable>) -> Seq<VariableView> {
    Seq::new(variables.len(), |i: int| variables[i]@)
}

/// What is found out about a log line.
pub struct ParsedLog {
    pub pattern_id: PatternID,
    pub template: String,
    pub count: u64,
    pub variables: Vec<TypedVariable>,
}

impl ParsedLog {
    /// Whether this is what is found out about a line with these tokens that has
    /// just been taken in: the identifier, the template and the size of its
    /// cluster, and what stands in the open places of the template.
    pub open spec fn describes(self, state: DrainView, tokens: Seq<Seq<char>>) -> bool {
        let cluster = state.clusters[0];
        &&& self.pattern_id == cluster.id
        &&& self.template@ == joined(cluster.template)
        &&& self.count == cluster.size
        &&& variable_views(self.variables@) == variables_of(
            cluster.template,
            tokens,
            state.param(),
        )
        &&& forall|i: int|
            0 <= i < self.variables@.len() && plain_text((#[trigger] self.variables@[i]).raw@)
                ==> self.variables@[i].var_type == plain_var_type(self.variables@[i].raw@)
    }
}

/// The clusters of the log lines seen so far.
pub struct Drain {
    config: Config,
    root_node: PrefixTree,
    id_to_cluster: LogClusterCache,
    clusters_counter: usize,
    trained: Ghost<nat>,
}

impl View for Drain {
    type V = DrainView;

    closed spec fn view(&self) -> DrainView {
        DrainView {
            config: self.config,
            tree: self.root_node@,
            clusters: self.id_to_cluster@,
            limit: self.id_to_cluster.limit(),
            created: self.clusters_counter as nat,
            trained: self.trained@,
        }
    }
}

impl Drain {
    /// The tree and the cache are intact.
    pub closed spec fn intact(&self) -> bool {
        self.root_node.wf() && self.id_to_cluster.wf()
    }

    /// What holds between any two calls.
    pub closed spec fn wf(&self) -> bool {
        self.intact() && self@.consistent() && self@.well_worded()
    }

    /// A `Drain` between two calls is in a consistent state, and its templates are
    /// made of words.
    pub proof fn is_consistent(&self)
        requires
            self.wf(),
        ensures
            self.intact(),
            self@.consistent(),
            self@.well_worded(),
    {
    }

    /// No lines yet. The tree is two layers lower than `log_cluster_depth`, which
    /// is at least 3.
    pub fn new(config: Config) -> (drain: Drain)
        requires
            config.log_cluster_depth >= 3,
        ensures
            drain.wf(),
            drain@ == DrainView::initial(config),
    {
        proof {
            DrainView::initial_is_consistent(config);
        }
        let max_node_depth: usize = config.log_cluster_depth - 2;
        let max_clusters: usize = config.max_clusters;
        Drain {
            config: Config { max_node_depth, ..config },
            root_node: PrefixTree::new(),
            id_to_cluster: LogClusterCache::new(max_clusters),
            clusters_counter: 0,
            trained: Ghost(0nat),
        }
    }

    /// The clusters that are kept, the most recently used one first. To read them
    /// is to use them in turn.
    pub fn clusters(&mut self) -> (clusters: Vec<LogCluster>)
        requires
            old(self).wf(),
        ensures
            final(self).wf(),
            cluster_views(clusters@) == old(self)@.clusters,
            final(self)@ == old(self)@.after_listing(),
    {
        proof {
            self@.listing_keeps_consistent();
        }
        self.id_to_cluster.values()
    }

    /// The tokens of a log line. None is empty or has white space in it, or an extra
    /// delimiter, where those are words themselves.
    pub fn get_content_as_tokens(&self, content: &str) -> (tokens: Vec<String>)
        ensures
            texts(tokens@) == self@.tokens(content@),
            all_words(texts(tokens@)),
            all_words(texts(self@.config.extra_delimiters@)) ==> forall|i: int, k: int|
                #![trigger tokens@[i], self@.config.extra_delimiters@[k]]
                0 <= i < tokens@.len() && 0 <= k < self@.config.extra_delimiters@.len()
                    ==> !contains_text(tokens@[i]@, self@.config.extra_delimiters@[k]@),
    {
        let tokens = self.split_content(content);
        proof {
            let delimiters = self.config.extra_delimiters@;
            tokens_are_words(content@, texts(delimiters));
            if all_words(texts(delimiters)) {
                assert forall|i: int, k: int|
                    #![trigger tokens@[i], delimiters[k]]
                    0 <= i < tokens@.len() && 0 <= k < delimiters.len() implies !contains_text(
                    tokens@[i]@,
                    delimiters[k]@,
                ) by {
                    tokens_contain_no_delimiter(content@, texts(delimiters), i, k);
                    assert(texts(tokens@)[i] == tokens@[i]@);
                }
            }
        }
        tokens
    }

    /// Splits a log line at white space and extra delimiters.
    fn split_content(&self, content: &str) -> (tokens: Vec<String>)
        ensures
            texts(tokens@) == self@.tokens(content@),
    {
        let delimiters = &self.config.extra_delimiters;
        if delimiters.len() == 0 {
            return split_words(content);
        }
        let ghost line = content@;
        let mut content = trim(content);
        let ghost trimmed_line = content@;
        let mut i: usize = 0;
        while i < delimiters.len()
            invariant
                i <= delimiters@.len(),
                content@ == delimiters_spaced(trimmed_line, texts(delimiters@).take(i as int)),
            decreases delimiters@.len() - i,
        {
            content = replace(content.as_str(), delimiters[i].as_str(), " ");
            proof {
                reveal_strlit(" ");
                assert(" "@ =~= seq![' ']);
                assert(texts(delimiters@).take(i + 1).drop_last() == texts(delimiters@).take(
                    i as int,
                ));
            }
            i = i + 1;
        }
        assert(texts(delimiters@).take(i as int) == texts(delimiters@));
        split_words(content.as_str())
    }

    /// The cluster that a line belongs to.
    fn tree_search_impl_fast(
        &self,
        tokens: &Vec<String>,
        sim_th: &Ratio,
        include_params: bool,
    ) -> (best: Option<usize>)
        requires
            self.wf(),
        ensures
            best == self@.best(texts(tokens@), *sim_th, include_params),
    {
        proof {
            self@.candidates_have_the_length(texts(tokens@));
        }
        match self.root_node.find_leaf(&self.config, tokens) {
            Some(leaf) => fast_match_id(
                &self.id_to_cluster,
                self.root_node.cluster_ids(leaf),
                tokens,
                &self.config.param_string,
                sim_th,
                include_params,
            ),
            None => None,
        }
    }

    /// A template with the tokens that two sequences have in common, and with the
    /// token that stands for any token in the other places.
    pub fn create_template(seq1: &Vec<String>, seq2: &Vec<String>, param_string: &String) -> (template:
        Vec<String>)
        requires
            seq1@.len() == seq2@.len(),
        ensures
            texts(template@) == merged(texts(seq1@), texts(seq2@), param_string@),
    {
        let mut template: Vec<String> = Vec::new();
        let mut i: usize = 0;
        while i < seq1.len()
            invariant
                i <= seq1@.len(),
                seq1@.len() == seq2@.len(),
                template@.len() == i,
                forall|j: int|
                    0 <= j < i ==> (#[trigger] template@[j])@ == merged(
                        texts(seq1@),
                        texts(seq2@),
                        param_string@,
                    )[j],
            decreases seq1@.len() - i,
        {
            if seq1[i] == seq2[i] {
                template.push(seq1[i].clone());
            } else {
                template.push(param_string.clone());
            }
            i = i + 1;
        }
        assert(texts(template@) =~= merged(texts(seq1@), texts(seq2@), param_string@));
        template
    }

    /// Files a cluster in a prefix tree.
    pub fn add_seq_to_prefix_tree(
        &self,
        root_node: &mut PrefixTree,
        cluster_id: usize,
        tokens: &Vec<String>,
    )
        requires
            self.intact(),
            old(root_node).wf(),
            fileable(old(root_node)@, self@.config.rules(), texts(tokens@)),
        ensures
            final(root_node).wf(),
            Some(final(root_node)@) == self@.filed_in(
                old(root_node)@,
                texts(tokens@),
                cluster_id,
            ),
    {
        root_node.add_seq_to_prefix_tree_impl(
            &self.config,
            cluster_id,
            tokens,
            &self.id_to_cluster,
        );
    }

    /// Files a new cluster in the own prefix tree, which is taken out meanwhile.
    fn add_seq_to_prefix_tree_helper(&mut self, cluster_id: usize, tokens: &Vec<String>)
        requires
            old(self).intact(),
            fileable(old(self)@.tree, old(self)@.config.rules(), texts(tokens@)),
            cluster_id == old(self)@.created + 1,
        ensures
            final(self).intact(),
            final(self)@ == (DrainView {
                tree: old(self)@.tree_with(texts(tokens@))->0,
                ..old(self)@
            }),
    {
        let mut root_node = PrefixTree::new();
        std::mem::swap(&mut root_node, &mut self.root_node);
        self.add_seq_to_prefix_tree(&mut root_node, cluster_id, tokens);
        self.root_node = root_node;
    }

    /// Takes in a line; hands out the identifier and the size of its cluster.
    fn train_with_tokens(&mut self, content_tokens: &Vec<String>) -> (id_and_size: (usize, usize))
        requires
            old(self).wf(),
            old(self)@.fits(texts(content_tokens@)),
            all_words(texts(content_tokens@)),
        ensures
            final(self).wf(),
            final(self)@ == old(self)@.after_training(texts(content_tokens@)),
            id_and_size.0 == final(self)@.clusters[0].id,
            id_and_size.1 == final(self)@.clusters[0].size,
    {
        let ghost before = self@;
        let ghost tokens = texts(content_tokens@);
        proof {
            before.training_keeps_consistent(tokens);
            before.training_keeps_well_worded(tokens);
            before.best_is_kept(tokens, before.config.sim_th, false);
        }
        let sim_th = self.config.sim_th;
        let home = self.tree_search_impl_fast(content_tokens, &sim_th, false);
        self.trained = Ghost(self.trained@ + 1);
        match home {
            Some(matched_id) => {
                let mut size: usize = 0;
                if let Some(cluster) = self.id_to_cluster.get(matched_id) {
                    cluster.log_template_tokens =
                    Drain::create_template(
                        &cluster.log_template_tokens,
                        content_tokens,
                        &self.config.param_string,
                    );
                    cluster.size = cluster.size + 1;
                    size = cluster.size;
                }
                (matched_id, size)
            },
            None => {
                let cluster_id: usize = self.clusters_counter + 1;
                self.add_seq_to_prefix_tree_helper(cluster_id, content_tokens);
                self.clusters_counter = cluster_id;
                let cluster = LogCluster {
                    log_template_tokens: copy_strings(content_tokens),
                    id: cluster_id,
                    size: 1,
                };
                self.id_to_cluster.set(cluster_id, cluster);
                (cluster_id, 1)
            },
        }
    }

    /// Takes in a log line; hands out its cluster.
    pub fn train(&mut self, content: &str) -> (cluster: LogCluster)
        requires
            old(self).wf(),
            (old(self)@.config.max_children > 0 && old(self)@.trained < usize::MAX) || old(
                self,
            )@.fits(old(self)@.tokens(content@)),
        ensures
            final(self).wf(),
            final(self)@ == old(self)@.after_training(old(self)@.tokens(content@)),
            cluster@ == final(self)@.clusters[0],
    {
        let content_tokens = self.get_content_as_tokens(content);
        proof {
            if self@.config.max_children > 0 && self@.trained < usize::MAX {
                self@.every_line_fits(texts(content_tokens@));
            }
        }
        let (id, size) = self.train_with_tokens(&content_tokens);
        proof {
            assert(self@.clusters.len() > 0);
            found_at(self@.clusters, 0);
        }
        match self.id_to_cluster.peek(id) {
            Some(cluster) => cluster.duplicate(),
            None => LogCluster { log_template_tokens: Vec::new(), id, size },
        }
    }

    /// Whether a log line can be taken in.
    pub fn accepts(&self, content: &str) -> (yes: bool)
        requires
            self.wf(),
        ensures
            yes == self@.fits(self@.tokens(content@)),
    {
        let content_tokens = self.get_content_as_tokens(content);
        proof {
            self@.best_is_kept(texts(content_tokens@), self@.config.sim_th, false);
        }
        match self.tree_search_impl_fast(&content_tokens, &self.config.sim_th, false) {
            Some(id) => match self.id_to_cluster.peek(id) {
                Some(cluster) => cluster.size < usize::MAX,
                None => false,
            },
            None => self.clusters_counter < usize::MAX && self.root_node.has_place_for(
                &self.config,
                &content_tokens,
            ),
        }
    }

    /// Takes in a log line if it can be taken in; hands out its cluster.
    pub fn try_train(&mut self, content: &str) -> (cluster: Option<LogCluster>)
        requires
            old(self).wf(),
        ensures
            final(self).wf(),
            cluster is Some <==> old(self)@.fits(old(self)@.tokens(content@)),
            cluster is None ==> final(self)@ == old(self)@,
            cluster matches Some(found) ==> {
                &&& final(self)@ == old(self)@.after_training(old(self)@.tokens(content@))
                &&& found@ == final(self)@.clusters[0]
            },
    {
        if self.accepts(content) {
            Some(self.train(content))
        } else {
            None
        }
    }

    /// Looks for a cluster whose template a log line has throughout. No cluster is
    /// made or changed.
    pub fn match_log(&mut self, content: &str) -> (cluster: Option<LogCluster>)
        requires
            old(self).wf(),
        ensures
            final(self).wf(),
            final(self)@ == old(self)@.after_matching(old(self)@.tokens(content@)),
            cluster is Some <==> old(self)@.perfect_match(old(self)@.tokens(content@)) is Some,
            cluster matches Some(found) ==> Some(found@) == old(self)@.perfect_match(
                old(self)@.tokens(content@),
            ),
    {
        let content_tokens = self.get_content_as_tokens(content);
        let whole = Ratio { numerator: 1, denominator: 1 };
        self.tree_search(&content_tokens, &whole, true)
    }

    /// The cluster that a line belongs to, as it is.
    pub fn tree_search_impl(
        &self,
        tokens: &Vec<String>,
        sim_th: &Ratio,
        include_params: bool,
    ) -> (cluster: Option<LogCluster>)
        requires
            self.wf(),
        ensures
            cluster is Some <==> self@.best_cluster(texts(tokens@), *sim_th, include_params) is Some,
            cluster matches Some(found) ==> Some(found@) == self@.best_cluster(
                texts(tokens@),
                *sim_th,
                include_params,
            ),
    {
        proof {
            self@.best_is_kept(texts(tokens@), *sim_th, include_params);
        }
        match self.tree_search_impl_fast(tokens, sim_th, include_params) {
            Some(id) => match self.id_to_cluster.peek(id) {
                Some(cluster) => Some(cluster.duplicate()),
                None => None,
            },
            None => None,
        }
    }

    /// Looks for the cluster of a line with these tokens.
    pub fn tree_search(
        &mut self,
        tokens: &Vec<String>,
        sim_th: &Ratio,
        include_params: bool,
    ) -> (cluster: Option<LogCluster>)
        requires
            old(self).wf(),
        ensures
            final(self).wf(),
            final(self)@ == old(self)@.after_matching(texts(tokens@)),
            cluster is Some <==> old(self)@.search(
                texts(tokens@),
                *sim_th,
                include_params,
            ) is Some,
            cluster matches Some(found) ==> Some(found@) == old(self)@.search(
                texts(tokens@),
                *sim_th,
                include_params,
            ),
    {
        let ghost before = self@;
        proof {
            before.matching_keeps_consistent(texts(tokens@));
        }
        if tokens.len() > 0 {
            return self.tree_search_impl(tokens, sim_th, include_params);
        }
        let first: usize = match self.root_node.find_leaf(&self.config, tokens) {
            Some(node) => {
                let ids = self.root_node.cluster_ids(node);
                if ids.len() == 0 {
                    return None;
                }
                ids[0]
            },
            None => {
                return None;
            },
        };
        proof {
            if holds(before.clusters, first) {
                assert(before.clusters[position(before.clusters, first)].id == first);
            }
        }
        match self.id_to_cluster.get(first) {
            Some(cluster) => Some(cluster.duplicate()),
            None => None,
        }
    }

    /// Takes in a log line; hands out the template of its cluster, how many lines
    /// the cluster has, and the parts of the line that the template leaves open.
    pub fn extract_template_and_vars(&mut self, content: &str) -> (parsed: ParsedLog)
        requires
            old(self).wf(),
            (old(self)@.config.max_children > 0 && old(self)@.trained < usize::MAX) || old(
                self,
            )@.fits(old(self)@.tokens(content@)),
        ensures
            final(self).wf(),
            final(self)@ == old(self)@.after_training(old(self)@.tokens(content@)),
            parsed.describes(final(self)@, old(self)@.tokens(content@)),
            parsed.pattern_id == final(self)@.clusters[0].id,
            parsed.template@ == joined(final(self)@.clusters[0].template),
            parsed.count == final(self)@.clusters[0].size,
            variable_views(parsed.variables@) == variables_of(
                final(self)@.clusters[0].template,
                old(self)@.tokens(content@),
                old(self)@.param(),
            ),
            forall|i: int|
                0 <= i < parsed.variables@.len() && plain_text(
                    (#[trigger] parsed.variables@[i]).raw@,
                ) ==> parsed.variables@[i].var_type == plain_var_type(parsed.variables@[i].raw@),
    {
        let content_tokens = self.get_content_as_tokens(content);
        let ghost tokens = texts(content_tokens@);
        let ghost param = self@.param();
        proof {
            if self@.config.max_children > 0 && self@.trained < usize::MAX {
                self@.every_line_fits(tokens);
            }
            self@.training_keeps_the_length(tokens);
        }
        let (cluster_id, cluster_size) = self.train_with_tokens(&content_tokens);
        proof {
            assert(self@.clusters.len() > 0);
            found_at(self@.clusters, 0);
        }
        let ghost template = self@.clusters[0].template;
        let mut variables: Vec<TypedVariable> = Vec::new();
        let template_line = match self.id_to_cluster.peek(cluster_id) {
            Some(cluster) => {
                let mut i: usize = 0;
                while i < content_tokens.len()
                    invariant
                        i <= content_tokens@.len(),
                        tokens == texts(content_tokens@),
                        template == texts(cluster.log_template_tokens@),
                        template.len() == tokens.len(),
                        param == self.config.param_string@,
                        variable_views(variables@) == variables_of(
                            template.take(i as int),
                            tokens.take(i as int),
                            param,
                        ),
                        forall|j: int|
                            0 <= j < variables@.len() && plain_text(
                                (#[trigger] variables@[j]).raw@,
                            ) ==> variables@[j].var_type == plain_var_type(variables@[j].raw@),
                    decreases content_tokens@.len() - i,
                {
                    proof {
                        assert(template.take(i + 1).drop_last() == template.take(i as int));
                        assert(tokens.take(i + 1).drop_last() == tokens.take(i as int));
                    }
                    if cluster.log_template_tokens[i] == self.config.param_string {
                        let ghost views = variable_views(variables@);
                        let variable = TypedVariable {
                            var_type: classify_variable(content_tokens[i].as_str()),
                            raw: content_tokens[i].clone(),
                        };
                        variables.push(variable);
                        assert(variable_views(variables@) =~= views.push(variable@));
                    }
                    i = i + 1;
                }
                proof {
                    assert(template.take(i as int) == template);
                    assert(tokens.take(i as int) == tokens);
                }
                cluster.get_template()
            },
            None => String::new(),
        };
        ParsedLog {
            pattern_id: cluster_id,
            template: template_line,
            count: cluster_size as u64,
            variables,
        }
    }

    /// Takes in a log line if it can be taken in; hands out what is found out about
    /// it.
    pub fn try_extract_template_and_vars(&mut self, content: &str) -> (parsed: Option<ParsedLog>)
        requires
            old(self).wf(),
        ensures
            final(self).wf(),
            parsed is Some <==> old(self)@.fits(old(self)@.tokens(content@)),
            parsed is None ==> final(self)@ == old(self)@,
            parsed matches Some(found) ==> {
                &&& final(self)@ == old(self)@.after_training(old(self)@.tokens(content@))
                &&& found.describes(final(self)@, old(self)@.tokens(content@))
                &&& found.pattern_id == final(self)@.clusters[0].id
                &&& found.template@ == joined(final(self)@.clusters[0].template)
                &&& found.count == final(self)@.clusters[0].size
                &&& variable_views(found.variables@) == variables_of(
                    final(self)@.clusters[0].template,
                    old(self)@.tokens(content@),
                    old(self)@.param(),
                )
                &&& forall|i: int|
                    0 <= i < found.variables@.len() && plain_text(
                        (#[trigger] found.variables@[i]).raw@,
                    ) ==> found.variables@[i].var_type == plain_var_type(
                        found.variables@[i].raw@,
                    )
            },
    {
        if self.accepts(content) {
            Some(self.extract_template_and_vars(content))
        } else {
            None
        }
    }
}

} // verus!
