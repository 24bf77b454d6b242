//! The prefix tree that narrows the search for a log line's cluster: by the
//! number of its tokens first, then by its leading tokens.

use crate::extraction::cache::LogClusterCache;
use crate::extraction::cluster::{holds, ClusterView};
use crate::extraction::config::Config;
use crate::text::{contains_number, decimal, has_numbers, texts, to_decimal};
use vstd::hash_map::StringHashMap;
use vstd::prelude::*;

verus! {

broadcast use vstd::hash_map::group_hash_map_axioms;

/// The keys that lead from the root of the tree to a node.
pub type Path = Seq<Seq<char>>;

/// A prefix tree: each of its nodes, by its path, with the identifiers of the
/// clusters filed there.
pub type Tree = Map<Path, Seq<usize>>;

/// How a tree grows.
pub struct Rules {
    /// How many layers lie below the root.
    pub depth: nat,
    /// How many children a node below the root has at most.
    pub children: nat,
    /// The token that stands for any token.
    pub param: Seq<char>,
}

/// The tree of no log line: a root and nothing filed in it.
pub open spec fn empty_tree() -> Tree {
    map![Seq::<Seq<char>>::empty() => Seq::<usize>::empty()]
}

/// The node of the first layer for lines with `count` tokens.
pub open spec fn layer(count: nat) -> Path {
    seq![decimal(count)]
}

/// The keys of a node's children.
pub open spec fn child_keys(tree: Tree, path: Path) -> Set<Seq<char>> {
    Set::new(|key: Seq<char>| tree.contains_key(path.push(key)))
}

/// The tree with a node at the path, an empty one where there was none.
pub open spec fn with_node(tree: Tree, path: Path) -> Tree {
    if tree.contains_key(path) {
        tree
    } else {
        tree.insert(path, Seq::empty())
    }
}

/// Whether a node in the layer `depth` is where a line is filed: the last layer
/// is reached, or the line's tokens are used up.
pub open spec fn is_leaf(rules: Rules, tokens: Seq<Seq<char>>, depth: nat) -> bool {
    depth >= rules.depth || depth >= tokens.len()
}

/// The leaf below a node, in the layer `depth`, to which the tokens lead: each
/// leads to its own child, or where there is none to the child for any token.
pub open spec fn descent(
    tree: Tree,
    rules: Rules,
    tokens: Seq<Seq<char>>,
    path: Path,
    depth: nat,
) -> Option<Path>
    decreases tokens.len() - depth,
{
    if is_leaf(rules, tokens, depth) {
        Some(path)
    } else if tree.contains_key(path.push(tokens[depth - 1])) {
        descent(tree, rules, tokens, path.push(tokens[depth - 1]), depth + 1)
    } else if tree.contains_key(path.push(rules.param)) {
        descent(tree, rules, tokens, path.push(rules.param), depth + 1)
    } else {
        None
    }
}

/// The leaf in which a line with these tokens is looked for.
pub open spec fn leaf_of(tree: Tree, rules: Rules, tokens: Seq<Seq<char>>) -> Option<Path> {
    if tree.contains_key(layer(tokens.len())) {
        descent(tree, rules, tokens, layer(tokens.len()), 1)
    } else {
        None
    }
}

/// The key under which a new line with this token goes on below a node. A token
/// gets a child of its own unless it contains a number or the children are too
/// many; one place is kept for the child for any token. `None` where the limit
/// leaves no place for that child either.
pub open spec fn branch(tree: Tree, rules: Rules, path: Path, token: Seq<char>) -> Option<
    Seq<char>,
> {
    let count = child_keys(tree, path).len();
    if tree.contains_key(path.push(token)) {
        Some(token)
    } else if contains_number(token) {
        Some(rules.param)
    } else if tree.contains_key(path.push(rules.param)) {
        if count < rules.children {
            Some(token)
        } else {
            Some(rules.param)
        }
    } else if count + 1 < rules.children {
        Some(token)
    } else if count + 1 == rules.children {
        Some(rules.param)
    } else {
        None
    }
}

/// The tree with the nodes that a new line needs below a node in the layer
/// `depth`, and the leaf of the line.
pub open spec fn grown(
    tree: Tree,
    rules: Rules,
    tokens: Seq<Seq<char>>,
    path: Path,
    depth: nat,
) -> Option<(Tree, Path)>
    decreases tokens.len() - depth,
{
    if is_leaf(rules, tokens, depth) {
        Some((tree, path))
    } else {
        match branch(tree, rules, path, tokens[depth - 1]) {
            Some(key) => grown(
                with_node(tree, path.push(key)),
                rules,
                tokens,
                path.push(key),
                depth + 1,
            ),
            None => None,
        }
    }
}

/// The identifiers whose clusters are still there, in the same order.
pub open spec fn live_ids(ids: Seq<usize>, clusters: Seq<ClusterView>) -> Seq<usize>
    decreases ids.len(),
{
    if ids.len() == 0 {
        ids
    } else if holds(clusters, ids.last()) {
        live_ids(ids.drop_last(), clusters).push(ids.last())
    } else {
        live_ids(ids.drop_last(), clusters)
    }
}

/// Whether a new cluster for a line with these tokens can be filed.
pub open spec fn fileable(tree: Tree, rules: Rules, tokens: Seq<Seq<char>>) -> bool {
    let first = layer(tokens.len());
    tokens.len() == 0 || grown(with_node(tree, first), rules, tokens, first, 1) is Some
}

/// The tree after a new cluster for a line with these tokens has been filed. A
/// leaf loses the clusters that are gone, that of the empty lines excepted.
/// `None` where the line cannot be filed.
pub open spec fn filed(
    tree: Tree,
    rules: Rules,
    tokens: Seq<Seq<char>>,
    id: usize,
    clusters: Seq<ClusterView>,
) -> Option<Tree> {
    let first = layer(tokens.len());
    let base = with_node(tree, first);
    if tokens.len() == 0 {
        Some(base.insert(first, base[first].push(id)))
    } else {
        match grown(base, rules, tokens, first, 1) {
            Some((tall, leaf)) => Some(
                tall.insert(leaf, live_ids(tall[leaf], clusters).push(id)),
            ),
            None => None,
        }
    }
}

/// A node: the nodes below it by their keys, and the clusters filed in it.
struct Node {
    key_to_child_node: StringHashMap<usize>,
    cluster_ids: Vec<usize>,
}

impl Node {
    fn new() -> (node: Node)
        ensures
            node.key_to_child_node@ == Map::<Seq<char>, usize>::empty(),
            node.cluster_ids@ == Seq::<usize>::empty(),
    {
        Node { key_to_child_node: StringHashMap::new(), cluster_ids: Vec::new() }
    }
}

/// A prefix tree whose nodes stand in one list and know their children by their
/// places in it. The root stands first.
pub struct PrefixTree {
    nodes: Vec<Node>,
    paths: Ghost<Seq<Path>>,
}

impl View for PrefixTree {
    type V = Tree;

    closed spec fn view(&self) -> Tree {
        Map::new(
            |path: Path| self.has_path(path),
            |path: Path| self.nodes@[self.place(path)].cluster_ids@,
        )
    }
}

impl PrefixTree {
    /// Whether a node has the path.
    spec fn has_path(&self, path: Path) -> bool {
        exists|i: int| 0 <= i < self.paths@.len() && self.paths@[i] == path
    }

    /// Where the node with a path stands.
    spec fn place(&self, path: Path) -> int {
        choose|i: int| 0 <= i < self.paths@.len() && self.paths@[i] == path
    }

    /// Different nodes have different paths, and a node knows exactly those
    /// below it as its children.
    pub closed spec fn wf(&self) -> bool {
        &&& self.nodes@.len() == self.paths@.len()
        &&& self.nodes@.len() > 0
        &&& self.paths@[0] == Seq::<Seq<char>>::empty()
        &&& forall|i: int, j: int|
            0 <= i < j < self.paths@.len() ==> #[trigger] self.paths@[i] != #[trigger] self.paths@[j]
        &&& forall|i: int, key: Seq<char>|
            #![trigger self.nodes@[i].key_to_child_node@.contains_key(key)]
            0 <= i < self.nodes@.len() && self.nodes@[i].key_to_child_node@.contains_key(key) ==> {
                let child = self.nodes@[i].key_to_child_node@[key] as int;
                child < self.nodes@.len() && self.paths@[child] == self.paths@[i].push(key)
            }
        &&& forall|i: int, j: int, key: Seq<char>|
            #![trigger self.nodes@[i].key_to_child_node@.contains_key(key), self.paths@[j]]
            0 <= i < self.nodes@.len() && 0 <= j < self.nodes@.len() && self.paths@[j]
                == self.paths@[i].push(key)
                ==> self.nodes@[i].key_to_child_node@.contains_key(key)
        &&& forall|i: int|
            0 <= i < self.paths@.len() && (#[trigger] self.paths@[i]).len() > 0 ==> self.has_path(
                self.paths@[i].drop_last(),
            )
        &&& forall|i: int|
            0 <= i < self.nodes@.len() ==> (#[trigger] self.nodes@[i]).key_to_child_node@.dom().finite()
    }

    /// The path of the node at a place.
    pub closed spec fn path(&self, node: usize) -> Path {
        self.paths@[node as int]
    }

    /// Whether a node stands at a place.
    pub closed spec fn valid(&self, node: usize) -> bool {
        node < self.nodes@.len()
    }

    proof fn node_view(&self, node: usize)
        requires
            self.wf(),
            self.valid(node),
        ensures
            self@.contains_key(self.path(node)),
            self@[self.path(node)] == self.nodes@[node as int].cluster_ids@,
            self.place(self.path(node)) == node,
    {
        assert(self.paths@[node as int] == self.path(node));
        let at = self.place(self.path(node));
        assert(0 <= at < self.paths@.len() && self.paths@[at] == self.path(node));
    }

    proof fn children_view(&self, node: usize)
        requires
            self.wf(),
            self.valid(node),
        ensures
            child_keys(self@, self.path(node)) == self.nodes@[node as int].key_to_child_node@.dom(),
            forall|key: Seq<char>|
                self@.contains_key(#[trigger] self.path(node).push(key))
                    <==> self.nodes@[node as int].key_to_child_node@.contains_key(key),
    {
        let children = self.nodes@[node as int].key_to_child_node@;
        assert forall|key: Seq<char>|
            self@.contains_key(#[trigger] self.path(node).push(key)) <==> children.contains_key(
                key,
            ) by {
            let path = self.path(node).push(key);
            if self@.contains_key(path) {
                let at = self.place(path);
                assert(self.paths@[at] == path);
            }
            if children.contains_key(key) {
                let child = children[key] as int;
                assert(self.paths@[child] == path);
            }
        }
        assert(child_keys(self@, self.path(node)) =~= children.dom());
    }

    /// A tree with nothing filed in it.
    pub fn new() -> (tree: PrefixTree)
        ensures
            tree.wf(),
            tree@ == empty_tree(),
    {
        let mut nodes: Vec<Node> = Vec::new();
        nodes.push(Node::new());
        let ghost paths: Seq<Path> = seq![Seq::<Seq<char>>::empty()];
        let tree = PrefixTree { nodes, paths: Ghost(paths) };
        proof {
            assert forall|key: Seq<char>| #[trigger] paths[0].push(key) != paths[0] by {
                assert(paths[0].push(key).len() == 1);
            }
            tree.node_view(0);
            assert(tree@ =~= empty_tree());
        }
        tree
    }

    fn child(&self, node: usize, key: &str) -> (child: Option<usize>)
        requires
            self.wf(),
            self.valid(node),
        ensures
            child is Some <==> self@.contains_key(self.path(node).push(key@)),
            child matches Some(below) ==> self.valid(below) && self.path(below) == self.path(
                node,
            ).push(key@),
    {
        proof {
            self.children_view(node);
        }
        match self.nodes[node].key_to_child_node.get(key) {
            Some(child) => Some(*child),
            None => None,
        }
    }

    fn child_count(&self, node: usize) -> (count: usize)
        requires
            self.wf(),
            self.valid(node),
        ensures
            count == child_keys(self@, self.path(node)).len(),
    {
        proof {
            self.children_view(node);
        }
        self.nodes[node].key_to_child_node.len()
    }

    /// The clusters filed in a node.
    pub fn cluster_ids(&self, node: usize) -> (ids: &Vec<usize>)
        requires
            self.wf(),
            self.valid(node),
        ensures
            ids@ == self@[self.path(node)],
    {
        proof {
            self.node_view(node);
        }
        &self.nodes[node].cluster_ids
    }

    fn set_cluster_ids(&mut self, node: usize, ids: Vec<usize>)
        requires
            old(self).wf(),
            old(self).valid(node),
        ensures
            final(self).wf(),
            final(self)@ == old(self)@.insert(old(self).path(node), ids@),
    {
        proof {
            self.node_view(node);
        }
        self.nodes[node].cluster_ids = ids;
        proof {
            assert(self.wf());
            assert forall|path: Path| #[trigger] self@.contains_key(path) implies self@[path] == old(
                self,
            )@.insert(old(self).path(node), ids@)[path] by {
                let at = self.place(path);
                self.node_view(at as usize);
                old(self).node_view(at as usize);
            }
            assert(self@ =~= old(self)@.insert(old(self).path(node), ids@));
        }
    }

    proof fn grown_wf(&self, before: &PrefixTree, node: usize, key: Seq<char>)
        requires
            before.wf(),
            before.valid(node),
            !before@.contains_key(before.path(node).push(key)),
            before.nodes@.len() < usize::MAX,
            self.paths@ == before.paths@.push(before.path(node).push(key)),
            self.nodes@.len() == before.nodes@.len() + 1,
            forall|i: int|
                0 <= i < before.nodes@.len() && i != node ==> #[trigger] self.nodes@[i]
                    == before.nodes@[i],
            self.nodes@[node as int].key_to_child_node@
                == before.nodes@[node as int].key_to_child_node@.insert(
                key,
                before.nodes@.len() as usize,
            ),
            self.nodes@[before.nodes@.len() as int].key_to_child_node@ == Map::<
                Seq<char>,
                usize,
            >::empty(),
        ensures
            self.wf(),
    {
        let path = before.path(node).push(key);
        let last = before.nodes@.len() as int;
        assert forall|i: int| 0 <= i < last implies #[trigger] before.paths@[i] != path by {
            if before.paths@[i] == path {
                assert(before.has_path(path));
            }
        }
        assert(path.drop_last() =~= before.path(node));
        assert(path.last() == key);
        assert forall|i: int, k: Seq<char>|
            #![trigger self.nodes@[i].key_to_child_node@.contains_key(k)]
            0 <= i < self.nodes@.len() && self.nodes@[i].key_to_child_node@.contains_key(
                k,
            ) implies {
            let child = self.nodes@[i].key_to_child_node@[k] as int;
            child < self.nodes@.len() && self.paths@[child] == self.paths@[i].push(k)
        } by {
            if i < last && !(i == node && k == key) {
                assert(before.nodes@[i].key_to_child_node@.contains_key(k));
            }
        }
        assert forall|i: int, j: int, k: Seq<char>|
            #![trigger self.nodes@[i].key_to_child_node@.contains_key(k), self.paths@[j]]
            0 <= i < self.nodes@.len() && 0 <= j < self.nodes@.len() && self.paths@[j]
                == self.paths@[i].push(
                k,
            ) implies self.nodes@[i].key_to_child_node@.contains_key(k) by {
            let above = self.paths@[i];
            assert(above.push(k).drop_last() =~= above);
            assert(above.push(k).last() == k);
            if i == last {
                assert(above.push(k).len() == path.len() + 1);
                if j < last {
                    assert(before.paths@[j].drop_last() == path);
                    assert(before.has_path(path));
                }
            } else if j == last {
                assert(before.paths@[i] == before.paths@[node as int]);
            } else {
                assert(before.paths@[j] == before.paths@[i].push(k));
                assert(before.nodes@[i].key_to_child_node@.contains_key(k));
            }
        }
        assert forall|i: int|
            0 <= i < self.paths@.len() && (#[trigger] self.paths@[i]).len()
                > 0 implies self.has_path(self.paths@[i].drop_last()) by {
            let above = self.paths@[i].drop_last();
            let at = if i < last {
                assert(before.has_path(before.paths@[i].drop_last()));
                before.place(above)
            } else {
                node as int
            };
            assert(self.paths@[at] == above);
        }
    }

    /// The child of a node under a key, made where it is missing.
    fn child_or_new(&mut self, node: usize, key: &String) -> (child: usize)
        requires
            old(self).wf(),
            old(self).valid(node),
        ensures
            final(self).wf(),
            final(self)@ == with_node(old(self)@, old(self).path(node).push(key@)),
            final(self).valid(child),
            final(self).path(child) == old(self).path(node).push(key@),
    {
        if let Some(child) = self.child(node, key.as_str()) {
            return child;
        }
        let ghost path = self.path(node).push(key@);
        let child: usize = self.nodes.len();
        proof {
            self.children_view(node);
        }
        self.nodes[node].key_to_child_node.insert(key.clone(), child);
        self.nodes.push(Node::new());
        self.paths = Ghost(self.paths@.push(path));
        proof {
            assert(self.nodes.len() == child + 1);
            self.grown_wf(old(self), node, key@);
            assert forall|p: Path| self@.contains_key(p) <==> old(self)@.contains_key(p) || p
                == path by {
                if old(self)@.contains_key(p) {
                    assert(self.paths@[old(self).place(p)] == p);
                }
                if p == path {
                    assert(self.paths@[child as int] == p);
                }
            }
            assert forall|p: Path| #[trigger] self@.contains_key(p) implies self@[p] == old(
                self,
            )@.insert(path, Seq::empty())[p] by {
                let at = self.place(p);
                self.node_view(at as usize);
                if at < child {
                    old(self).node_view(at as usize);
                }
            }
            self.node_view(child);
            assert(self@ =~= old(self)@.insert(path, Seq::empty()));
        }
        child
    }

    /// The key under which a new line with this token goes on below a node.
    fn branch<'a>(&self, config: &'a Config, node: usize, token: &'a String) -> (key: Option<
        &'a String,
    >)
        requires
            self.wf(),
            self.valid(node),
        ensures
            key is Some <==> branch(self@, config.rules(), self.path(node), token@) is Some,
            key matches Some(found) ==> Some(found@) == branch(
                self@,
                config.rules(),
                self.path(node),
                token@,
            ),
    {
        if self.child(node, token.as_str()).is_some() {
            return Some(token);
        }
        if has_numbers(token.as_str()) {
            return Some(&config.param_string);
        }
        let children: usize = self.child_count(node);
        if self.child(node, config.param_string.as_str()).is_some() {
            if children < config.max_children {
                Some(token)
            } else {
                Some(&config.param_string)
            }
        } else if children >= config.max_children {
            None
        } else if children < config.max_children - 1 {
            Some(token)
        } else {
            Some(&config.param_string)
        }
    }

    /// Below a path that no node has there are no nodes.
    proof fn nothing_below(&self, path: Path, below: Path)
        requires
            self.wf(),
            !self@.contains_key(path),
            path.is_prefix_of(below),
        ensures
            !self@.contains_key(below),
        decreases below.len(),
    {
        if self@.contains_key(below) {
            let at = self.place(below);
            assert(self.paths@[at] == below);
            if path.len() == below.len() {
                assert(path =~= below);
            } else {
                assert(self.has_path(below.drop_last()));
                self.nothing_below(path, below.drop_last());
            }
        }
    }

    /// Whether a new cluster for a line with these tokens can be filed.
    pub fn has_place_for(&self, config: &Config, tokens: &Vec<String>) -> (yes: bool)
        requires
            self.wf(),
        ensures
            yes == fileable(self@, config.rules(), texts(tokens@)),
    {
        let ghost rules = config.rules();
        let ghost line = texts(tokens@);
        let ghost first = layer(line.len());
        let token_count: usize = tokens.len();
        let count = to_decimal(token_count);
        assert(self.path(0).push(decimal(token_count as nat)) =~= first);
        let mut node: Option<usize> = self.child(0, count.as_str());
        let ghost base = with_node(self@, first);
        let ghost mut tall = base;
        let ghost mut path = first;
        proof {
            if node is None {
                assert forall|p: Path| #[trigger]
                    base.contains_key(p) && first.is_prefix_of(p) implies p == first by {
                    if p != first {
                        self.nothing_below(first, p);
                    }
                }
            }
        }
        let mut depth: usize = 1;
        while depth < config.max_node_depth && depth < token_count
            invariant
                self.wf(),
                rules == config.rules(),
                line == texts(tokens@),
                token_count == line.len(),
                depth >= 1,
                first == layer(line.len()),
                base == with_node(self@, first),
                grown(base, rules, line, first, 1) == grown(tall, rules, line, path, depth as nat),
                node matches Some(at) ==> self.valid(at) && tall == self@ && path == self.path(at),
                node is None ==> forall|p: Path| #[trigger]
                    tall.contains_key(p) && path.is_prefix_of(p) ==> p == path,
            decreases token_count - depth,
        {
            let token = &tokens[depth - 1];
            match node {
                Some(at) => match self.branch(config, at, token) {
                    Some(key) => {
                        node = self.child(at, key.as_str());
                        proof {
                            path = path.push(key@);
                            tall = with_node(tall, path);
                            if node is None {
                                assert forall|p: Path| #[trigger]
                                    tall.contains_key(p) && path.is_prefix_of(p) implies p
                                    == path by {
                                    if p != path {
                                        self.nothing_below(path, p);
                                    }
                                }
                            }
                        }
                    },
                    None => {
                        return false;
                    },
                },
                None => {
                    proof {
                        assert forall|key: Seq<char>| !tall.contains_key(
                            #[trigger] path.push(key),
                        ) by {
                            assert(path.is_prefix_of(path.push(key)));
                            assert(path.push(key).len() != path.len());
                        }
                        assert(child_keys(tall, path) =~= Set::<Seq<char>>::empty());
                    }
                    if config.max_children == 0 && !has_numbers(token.as_str()) {
                        return false;
                    }
                    proof {
                        let above = path;
                        path = path.push(branch(tall, rules, path, token@)->0);
                        assert(path.drop_last() =~= above);
                        tall = with_node(tall, path);
                        assert forall|p: Path| #[trigger]
                            tall.contains_key(p) && path.is_prefix_of(p) implies p == path by {
                            assert(above.is_prefix_of(p));
                        }
                    }
                },
            }
            depth = depth + 1;
        }
        true
    }

    /// The leaf in which a line with these tokens is looked for.
    pub fn find_leaf(&self, config: &Config, tokens: &Vec<String>) -> (leaf: Option<usize>)
        requires
            self.wf(),
        ensures
            leaf is Some <==> leaf_of(self@, config.rules(), texts(tokens@)) is Some,
            leaf matches Some(node) ==> self.valid(node) && leaf_of(
                self@,
                config.rules(),
                texts(tokens@),
            ) == Some(self.path(node)),
    {
        let ghost rules = config.rules();
        let ghost line = texts(tokens@);
        let token_count: usize = tokens.len();
        let count = to_decimal(token_count);
        assert(self.path(0).push(decimal(token_count as nat)) =~= layer(line.len()));
        let mut node: usize = match self.child(0, count.as_str()) {
            Some(child) => child,
            None => {
                return None;
            },
        };
        let mut depth: usize = 1;
        while depth < config.max_node_depth && depth < token_count
            invariant
                self.wf(),
                self.valid(node),
                rules == config.rules(),
                line == texts(tokens@),
                token_count == line.len(),
                depth >= 1,
                leaf_of(self@, rules, line) == descent(
                    self@,
                    rules,
                    line,
                    self.path(node),
                    depth as nat,
                ),
            decreases token_count - depth,
        {
            let own = self.child(node, tokens[depth - 1].as_str());
            node = match own {
                Some(child) => child,
                None => match self.child(node, config.param_string.as_str()) {
                    Some(child) => child,
                    None => {
                        return None;
                    },
                },
            };
            depth = depth + 1;
        }
        Some(node)
    }

    /// Files a new cluster for a line with these tokens.
    pub fn add_seq_to_prefix_tree_impl(
        &mut self,
        config: &Config,
        cluster_id: usize,
        tokens: &Vec<String>,
        id_to_cluster: &LogClusterCache,
    )
        requires
            old(self).wf(),
            id_to_cluster.wf(),
            fileable(old(self)@, config.rules(), texts(tokens@)),
        ensures
            final(self).wf(),
            Some(final(self)@) == filed(
                old(self)@,
                config.rules(),
                texts(tokens@),
                cluster_id,
                id_to_cluster@,
            ),
    {
        let ghost rules = config.rules();
        let ghost line = texts(tokens@);
        let token_count: usize = tokens.len();
        let count = to_decimal(token_count);
        assert(self.path(0).push(decimal(token_count as nat)) =~= layer(line.len()));
        let mut node: usize = self.child_or_new(0, &count);
        let ghost base = self@;
        if token_count == 0 {
            let mut ids = copy_ids(self.cluster_ids(node));
            ids.push(cluster_id);
            self.set_cluster_ids(node, ids);
            return;
        }
        let mut depth: usize = 1;
        while depth < config.max_node_depth && depth < token_count
            invariant
                self.wf(),
                self.valid(node),
                rules == config.rules(),
                line == texts(tokens@),
                token_count == line.len(),
                depth >= 1,
                grown(base, rules, line, layer(line.len()), 1) is Some,
                grown(base, rules, line, layer(line.len()), 1) == grown(
                    self@,
                    rules,
                    line,
                    self.path(node),
                    depth as nat,
                ),
            decreases token_count - depth,
        {
            let token = &tokens[depth - 1];
            let key = match self.branch(config, node, token) {
                Some(key) => key,
                None => &config.param_string,
            };
            node = self.child_or_new(node, key);
            depth = depth + 1;
        }
        let mut ids = live_cluster_ids(self.cluster_ids(node), id_to_cluster);
        ids.push(cluster_id);
        self.set_cluster_ids(node, ids);
    }
}

fn copy_ids(ids: &Vec<usize>) -> (copy: Vec<usize>)
    ensures
        copy@ == ids@,
{
    let copy = ids.clone();
    assert(copy@ =~= ids@);
    copy
}

/// The identifiers whose clusters are still there.
fn live_cluster_ids(ids: &Vec<usize>, id_to_cluster: &LogClusterCache) -> (live: Vec<usize>)
    requires
        id_to_cluster.wf(),
    ensures
        live@ == live_ids(ids@, id_to_cluster@),
{
    let mut live: Vec<usize> = Vec::new();
    let mut i: usize = 0;
    while i < ids.len()
        invariant
            i <= ids@.len(),
            id_to_cluster.wf(),
            live@ == live_ids(ids@.take(i as int), id_to_cluster@),
        decreases ids@.len() - i,
    {
        assert(ids@.take(i + 1).drop_last() == ids@.take(i as int));
        if id_to_cluster.peek(ids[i]).is_some() {
            live.push(ids[i]);
        }
        i = i + 1;
    }
    assert(ids@.take(i as int) == ids@);
    live
}

} // verus!
