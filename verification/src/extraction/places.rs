//! Where in the prefix tree lines are looked for and clusters are filed.

use crate::extraction::cluster::{cluster_of, found_at, holds, ClusterView};
use crate::extraction::growth::filing;
use crate::extraction::laws::a_line_joins_the_closest_cluster;
use crate::extraction::matching::agreements;
use crate::extraction::meaning::{a_close_cluster_is_taken, a_line_gets_its_own_cluster};
use crate::extraction::state::DrainView;
use crate::extraction::tree::{
    branch, child_keys, descent, filed, fileable, grown, is_leaf, layer, leaf_of, live_ids,
    with_node, Path, Rules, Tree,
};
use crate::text::{contains_number, decimal};
use vstd::prelude::*;

verus! {

/// The children of a node are the nodes one key below it.
pub proof fn children_are_one_key_below(tree: Tree, node: Path, key: Seq<char>)
    ensures
        child_keys(tree, node).contains(key) <==> tree.contains_key(node.push(key)),
{
}

proof fn descending(
    tree: Tree,
    rules: Rules,
    tokens: Seq<Seq<char>>,
    path: Path,
    depth: nat,
    leaf: Path,
)
    requires
        path.len() == depth,
        depth > 0,
    ensures
        descent(tree, rules, tokens, path, depth) == Some(leaf) <==> {
            &&& leaf.len() == if depth >= rules.depth || depth >= tokens.len() {
                depth
            } else if rules.depth <= tokens.len() {
                rules.depth
            } else {
                tokens.len()
            }
            &&& path.is_prefix_of(leaf)
            &&& forall|i: int|
                depth < i <= leaf.len() ==> tree.contains_key(#[trigger] leaf.take(i))
            &&& forall|i: int|
                depth <= i < leaf.len() ==> {
                    ||| #[trigger] leaf[i] == tokens[i - 1]
                    ||| leaf[i] == rules.param && !tree.contains_key(
                        leaf.take(i).push(tokens[i - 1]),
                    )
                }
        },
    decreases tokens.len() - depth,
{
    if is_leaf(rules, tokens, depth) {
        if leaf.len() == depth && path.is_prefix_of(leaf) {
            assert(leaf =~= path);
        }
    } else {
        let token = tokens[depth - 1];
        let own = path.push(token);
        let any = path.push(rules.param);
        descending(tree, rules, tokens, own, depth + 1, leaf);
        descending(tree, rules, tokens, any, depth + 1, leaf);
        if leaf.len() > depth && path.is_prefix_of(leaf) {
            assert(leaf.take(depth as int) =~= path);
            assert(leaf.take(depth + 1int) =~= path.push(leaf[depth as int]));
        }
        if own.is_prefix_of(leaf) {
            assert(leaf[depth as int] == own[depth as int]);
            assert(leaf.take(depth as int) =~= path);
            assert(leaf.take(depth + 1int) =~= own);
            assert(path.is_prefix_of(leaf));
        }
        if any.is_prefix_of(leaf) {
            assert(leaf[depth as int] == any[depth as int]);
            assert(leaf.take(depth as int) =~= path);
            assert(leaf.take(depth + 1int) =~= any);
            assert(path.is_prefix_of(leaf));
        }
        if leaf.len() > depth && path.is_prefix_of(leaf) {
            if leaf[depth as int] == token {
                assert(own.is_prefix_of(leaf));
            }
            if leaf[depth as int] == rules.param {
                assert(any.is_prefix_of(leaf));
            }
        }
    }
}

/// The leaf in which a line is looked for: it lies in the layer for the number of the
/// line's tokens, as deep as the tree and the tokens go, and every key on the way is
/// the line's token in that place, or the one for any token where the tree has no
/// node for the line's own.
pub proof fn the_leaf_of_a_line(tree: Tree, rules: Rules, tokens: Seq<Seq<char>>, leaf: Path)
    ensures
        leaf_of(tree, rules, tokens) == Some(leaf) <==> {
            &&& leaf.len() == if rules.depth <= 1 || tokens.len() <= 1 {
                1
            } else if rules.depth <= tokens.len() {
                rules.depth
            } else {
                tokens.len()
            }
            &&& leaf[0] == decimal(tokens.len())
            &&& forall|i: int| 0 < i <= leaf.len() ==> tree.contains_key(#[trigger] leaf.take(i))
            &&& forall|i: int|
                0 < i < leaf.len() ==> {
                    ||| #[trigger] leaf[i] == tokens[i - 1]
                    ||| leaf[i] == rules.param && !tree.contains_key(
                        leaf.take(i).push(tokens[i - 1]),
                    )
                }
        },
{
    let first = layer(tokens.len());
    descending(tree, rules, tokens, first, 1, leaf);
    if leaf.len() > 0 {
        assert(leaf.take(1) =~= seq![leaf[0]]);
        if leaf[0] == decimal(tokens.len()) {
            assert(leaf.take(1) =~= first);
            assert(first.is_prefix_of(leaf));
        }
        if first.is_prefix_of(leaf) {
            assert(leaf[0] == first[0]);
        }
    }
}

/// The tree offers for a line what is filed in its leaf, and nothing where it has none.
pub proof fn candidates_are_what_is_filed(state: DrainView, tokens: Seq<Seq<char>>)
    ensures
        leaf_of(state.tree, state.config.rules(), tokens) matches Some(leaf) ==> state.candidates(
            tokens,
        ) == state.tree[leaf],
        leaf_of(state.tree, state.config.rules(), tokens) is None ==> state.candidates(
            tokens,
        ).len() == 0,
{
}

/// The same clusters are offered for two lines with as many tokens and the same ones at
/// the start, as many as the tree looks at.
pub proof fn leading_tokens_decide(
    state: DrainView,
    tokens: Seq<Seq<char>>,
    others: Seq<Seq<char>>,
)
    requires
        tokens.len() == others.len(),
        forall|i: int|
            0 <= i < tokens.len() && i + 1 < state.config.max_node_depth ==> #[trigger] tokens[i]
                == others[i],
    ensures
        state.candidates(tokens) == state.candidates(others),
        leaf_of(state.tree, state.config.rules(), tokens) == leaf_of(
            state.tree,
            state.config.rules(),
            others,
        ),
{
    let rules = state.config.rules();
    let a = leaf_of(state.tree, rules, tokens);
    let b = leaf_of(state.tree, rules, others);
    if a is Some {
        the_leaf_of_a_line(state.tree, rules, tokens, a->0);
        the_leaf_of_a_line(state.tree, rules, others, a->0);
        assert forall|i: int| 0 < i < a->0.len() implies {
            ||| #[trigger] a->0[i] == others[i - 1]
            ||| a->0[i] == rules.param && !state.tree.contains_key(
                a->0.take(i).push(others[i - 1]),
            )
        } by {
            assert(tokens[i - 1] == others[i - 1]);
        }
        assert(b == a);
    } else if b is Some {
        the_leaf_of_a_line(state.tree, rules, tokens, b->0);
        the_leaf_of_a_line(state.tree, rules, others, b->0);
        assert forall|i: int| 0 < i < b->0.len() implies {
            ||| #[trigger] b->0[i] == tokens[i - 1]
            ||| b->0[i] == rules.param && !state.tree.contains_key(
                b->0.take(i).push(tokens[i - 1]),
            )
        } by {
            assert(tokens[i - 1] == others[i - 1]);
        }
        assert(a == b);
    }
}

/// The key with which a new cluster goes on in a place.
spec fn goes_on(tree: Tree, rules: Rules, tokens: Seq<Seq<char>>, leaf: Path, i: int) -> bool {
    branch(tree, rules, leaf.take(i), tokens[i - 1]) == Some(leaf[i])
}

proof fn goes_on_alike(
    tree: Tree,
    next: Tree,
    node: Path,
    rules: Rules,
    tokens: Seq<Seq<char>>,
    leaf: Path,
    i: int,
)
    requires
        next == with_node(tree, node),
        node.len() <= i < leaf.len(),
    ensures
        goes_on(next, rules, tokens, leaf, i) == goes_on(tree, rules, tokens, leaf, i),
{
    let q = leaf.take(i);
    assert forall|k: Seq<char>| next.contains_key(#[trigger] q.push(k)) == tree.contains_key(
        q.push(k),
    ) by {
        assert(q.push(k).len() != node.len());
    }
    assert(child_keys(next, q) =~= child_keys(tree, q));
}

proof fn growing(
    tree: Tree,
    rules: Rules,
    tokens: Seq<Seq<char>>,
    path: Path,
    depth: nat,
    leaf: Path,
)
    requires
        path.len() == depth,
        depth > 0,
    ensures
        (match grown(tree, rules, tokens, path, depth) {
            Some((_, found)) => found == leaf,
            None => false,
        }) <==> {
            &&& leaf.len() == if depth >= rules.depth || depth >= tokens.len() {
                depth
            } else if rules.depth <= tokens.len() {
                rules.depth
            } else {
                tokens.len()
            }
            &&& path.is_prefix_of(leaf)
            &&& forall|i: int|
                depth <= i < leaf.len() ==> #[trigger] goes_on(tree, rules, tokens, leaf, i)
        },
        grown(tree, rules, tokens, path, depth) matches Some((tall, found)) ==> {
            &&& forall|p: Path| #[trigger]
                tall.contains_key(p) <==> tree.contains_key(p) || (p.len() > path.len()
                    && p.is_prefix_of(found))
            &&& forall|p: Path| #[trigger]
                tall.contains_key(p) ==> tall[p] == if tree.contains_key(p) {
                    tree[p]
                } else {
                    Seq::empty()
                }
        },
    decreases tokens.len() - depth,
{
    if is_leaf(rules, tokens, depth) {
        if leaf.len() == depth && path.is_prefix_of(leaf) {
            assert(leaf =~= path);
        }
    } else {
        let token = tokens[depth - 1];
        let at = depth as int;
        let hit = match grown(tree, rules, tokens, path, depth) {
            Some((_, found)) => found == leaf,
            None => false,
        };
        let good = leaf.len() > depth && path.is_prefix_of(leaf) && forall|i: int|
            depth <= i < leaf.len() ==> #[trigger] goes_on(tree, rules, tokens, leaf, i);
        if good {
            assert(leaf.take(at) =~= path);
            assert(goes_on(tree, rules, tokens, leaf, at));
            assert(branch(tree, rules, path, token) == Some(leaf[at]));
        }
        if branch(tree, rules, path, token) is Some {
            let key = branch(tree, rules, path, token)->0;
            let below = path.push(key);
            let next = with_node(tree, below);
            growing(next, rules, tokens, below, depth + 1, leaf);
            if good {
                assert(below.is_prefix_of(leaf));
                assert forall|i: int| depth + 1 <= i < leaf.len() implies #[trigger] goes_on(
                    next,
                    rules,
                    tokens,
                    leaf,
                    i,
                ) by {
                    assert(goes_on(tree, rules, tokens, leaf, i));
                    goes_on_alike(tree, next, below, rules, tokens, leaf, i);
                }
            }
            if hit {
                assert(below.is_prefix_of(leaf));
                assert(leaf[at] == below[at]);
                assert(path.is_prefix_of(leaf));
                assert(leaf.take(at) =~= path);
                assert forall|i: int| depth <= i < leaf.len() implies #[trigger] goes_on(
                    tree,
                    rules,
                    tokens,
                    leaf,
                    i,
                ) by {
                    if i > depth {
                        assert(goes_on(next, rules, tokens, leaf, i));
                        goes_on_alike(tree, next, below, rules, tokens, leaf, i);
                    }
                }
            }
            if grown(tree, rules, tokens, path, depth) is Some {
                let (tall, found) = grown(tree, rules, tokens, path, depth)->0;
                growing(next, rules, tokens, below, depth + 1, found);
                assert(below.is_prefix_of(found));
                assert forall|p: Path| #[trigger]
                    tall.contains_key(p) <==> tree.contains_key(p) || (p.len() > path.len()
                    && p.is_prefix_of(found)) by {
                    if p == below {
                        assert(next.contains_key(p));
                    }
                    if p.is_prefix_of(found) && p.len() == below.len() {
                        assert(p =~= below);
                    }
                }
                assert forall|p: Path| #[trigger] tall.contains_key(p) implies tall[p]
                    == if tree.contains_key(p) {
                    tree[p]
                } else {
                    Seq::empty()
                } by {
                    assert(next.contains_key(p) ==> tall[p] == next[p]);
                }
            }
        }
    }
}

proof fn all_keys(tree: Tree, rules: Rules, tokens: Seq<Seq<char>>, leaf: Path)
    requires
        forall|i: int|
            0 < i < leaf.len() ==> #[trigger] goes_on(tree, rules, tokens, leaf, i),
    ensures
        forall|i: int|
            #![trigger leaf.take(i)]
            0 < i < leaf.len() ==> {
                let node = leaf.take(i);
                let token = tokens[i - 1];
                let own = tree.contains_key(node.push(token));
                let any = tree.contains_key(node.push(rules.param));
                let children = child_keys(tree, node).len();
                &&& own ==> leaf[i] == token
                &&& !own && contains_number(token) ==> leaf[i] == rules.param
                &&& !own && !contains_number(token) && any && children < rules.children ==> leaf[i]
                    == token
                &&& !own && !contains_number(token) && any && children >= rules.children ==> leaf[i]
                    == rules.param
                &&& !own && !contains_number(token) && !any ==> children < rules.children
                &&& !own && !contains_number(token) && !any && children + 1 < rules.children
                    ==> leaf[i] == token
                &&& !own && !contains_number(token) && !any && children + 1 == rules.children
                    ==> leaf[i] == rules.param
            },
{
    assert forall|i: int|
        #![trigger leaf.take(i)]
        0 < i < leaf.len() implies {
            let node = leaf.take(i);
            let token = tokens[i - 1];
            let own = tree.contains_key(node.push(token));
            let any = tree.contains_key(node.push(rules.param));
            let children = child_keys(tree, node).len();
            &&& own ==> leaf[i] == token
            &&& !own && contains_number(token) ==> leaf[i] == rules.param
            &&& !own && !contains_number(token) && any && children < rules.children ==> leaf[i]
                == token
            &&& !own && !contains_number(token) && any && children >= rules.children ==> leaf[i]
                == rules.param
            &&& !own && !contains_number(token) && !any ==> children < rules.children
            &&& !own && !contains_number(token) && !any && children + 1 < rules.children
                ==> leaf[i] == token
            &&& !own && !contains_number(token) && !any && children + 1 == rules.children
                ==> leaf[i] == rules.param
        } by {
        assert(goes_on(tree, rules, tokens, leaf, i));
    }
}

/// A new cluster is filed in one leaf of the tree. That lies in the layer for the number
/// of the line's tokens, as deep as the tree and the tokens go. On the way there
/// every key is the line's token in that place where the tree has a node for it, and
/// otherwise: the one for any token where the line's token contains a number; the
/// line's token while there is room for another child, with a place kept for the child
/// for any token until it is there; the one for any token where there is no room.
/// Those nodes are added, with nothing in them, and no others. In the leaf the cluster
/// stands last, behind those that are still kept; all other nodes hold what they held.
pub proof fn the_place_of_a_new_cluster(
    tree: Tree,
    rules: Rules,
    tokens: Seq<Seq<char>>,
    id: usize,
    clusters: Seq<ClusterView>,
    after: Tree,
) -> (leaf: Path)
    requires
        filed(tree, rules, tokens, id, clusters) == Some(after),
    ensures
        leaf.len() == if rules.depth <= 1 || tokens.len() <= 1 {
            1
        } else if rules.depth <= tokens.len() {
            rules.depth
        } else {
            tokens.len()
        },
        leaf[0] == decimal(tokens.len()),
        forall|i: int|
            #![trigger leaf.take(i)]
            0 < i < leaf.len() ==> {
                let node = leaf.take(i);
                let token = tokens[i - 1];
                let own = tree.contains_key(node.push(token));
                let any = tree.contains_key(node.push(rules.param));
                let children = child_keys(tree, node).len();
                &&& own ==> leaf[i] == token
                &&& !own && contains_number(token) ==> leaf[i] == rules.param
                &&& !own && !contains_number(token) && any && children < rules.children ==> leaf[i]
                    == token
                &&& !own && !contains_number(token) && any && children >= rules.children ==> leaf[i]
                    == rules.param
                &&& !own && !contains_number(token) && !any ==> children < rules.children
                &&& !own && !contains_number(token) && !any && children + 1 < rules.children
                    ==> leaf[i] == token
                &&& !own && !contains_number(token) && !any && children + 1 == rules.children
                    ==> leaf[i] == rules.param
            },
        forall|p: Path| #[trigger]
            after.contains_key(p) <==> tree.contains_key(p) || (p.len() > 0
                && p.is_prefix_of(leaf)),
        forall|p: Path| #[trigger]
            after.contains_key(p) && p != leaf ==> after[p] == if tree.contains_key(p) {
                tree[p]
            } else {
                Seq::empty()
            },
        after[leaf] == if !tree.contains_key(leaf) {
            seq![id]
        } else if tokens.len() == 0 {
            tree[leaf].push(id)
        } else {
            live_ids(tree[leaf], clusters).push(id)
        },
{
    let first = layer(tokens.len());
    let base = with_node(tree, first);
    let nothing = Seq::<usize>::empty();
    assert(live_ids(nothing, clusters) =~= nothing);
    assert(nothing.push(id) =~= seq![id]);
    assert forall|p: Path| p.len() > 0 && #[trigger] p.is_prefix_of(first) implies p == first by {
        assert(p =~= first);
    }
    assert(first.is_prefix_of(first));
    if tokens.len() == 0 {
        assert(after.contains_key(first));
        assert(base[first] == if tree.contains_key(first) {
            tree[first]
        } else {
            nothing
        });
        first
    } else {
        let (tall, leaf) = grown(base, rules, tokens, first, 1)->0;
        growing(base, rules, tokens, first, 1, leaf);
        assert(leaf[0] == first[0]);
        assert forall|i: int| 0 < i < leaf.len() implies #[trigger] goes_on(
            tree,
            rules,
            tokens,
            leaf,
            i,
        ) by {
            assert(goes_on(base, rules, tokens, leaf, i));
            goes_on_alike(tree, base, first, rules, tokens, leaf, i);
        }
        all_keys(tree, rules, tokens, leaf);
        assert forall|p: Path| #[trigger] p.is_prefix_of(leaf) && p.len() == 1 implies p
            == first by {
            assert(p[0] == leaf[0]);
            assert(p =~= first);
        }
        assert(leaf.is_prefix_of(leaf));
        assert(tall.contains_key(leaf));
        assert(after.contains_key(leaf));
        assert forall|p: Path| #[trigger] after.contains_key(p) <==> tree.contains_key(p) || (
        p.len() > 0 && p.is_prefix_of(leaf)) by {
            if p == first {
                assert(base.contains_key(p));
            }
            if p.is_prefix_of(leaf) && p.len() == 1 {
                assert(p == first);
            }
        }
        leaf
    }
}

/// A new cluster can be filed wherever there is such a leaf.
pub proof fn a_place_is_found(tree: Tree, rules: Rules, tokens: Seq<Seq<char>>, leaf: Path)
    requires
        leaf.len() == if rules.depth <= 1 || tokens.len() <= 1 {
            1
        } else if rules.depth <= tokens.len() {
            rules.depth
        } else {
            tokens.len()
        },
        leaf[0] == decimal(tokens.len()),
        forall|i: int|
            #![trigger leaf.take(i)]
            0 < i < leaf.len() ==> {
                let node = leaf.take(i);
                let token = tokens[i - 1];
                let own = tree.contains_key(node.push(token));
                let any = tree.contains_key(node.push(rules.param));
                let children = child_keys(tree, node).len();
                &&& own ==> leaf[i] == token
                &&& !own && contains_number(token) ==> leaf[i] == rules.param
                &&& !own && !contains_number(token) && any && children < rules.children ==> leaf[i]
                    == token
                &&& !own && !contains_number(token) && any && children >= rules.children ==> leaf[i]
                    == rules.param
                &&& !own && !contains_number(token) && !any ==> children < rules.children
                &&& !own && !contains_number(token) && !any && children + 1 < rules.children
                    ==> leaf[i] == token
                &&& !own && !contains_number(token) && !any && children + 1 == rules.children
                    ==> leaf[i] == rules.param
            },
    ensures
        fileable(tree, rules, tokens),
{
    let first = layer(tokens.len());
    let base = with_node(tree, first);
    if tokens.len() > 0 {
        growing(base, rules, tokens, first, 1, leaf);
        assert(first.is_prefix_of(leaf)) by {
            assert(leaf[0] == first[0]);
        }
        assert forall|i: int| 1 <= i < leaf.len() implies #[trigger] goes_on(
            base,
            rules,
            tokens,
            leaf,
            i,
        ) by {
            assert(leaf.take(i).len() == i);
            goes_on_alike(tree, base, first, rules, tokens, leaf, i);
        }
    }
}

/// A line can be taken in where its cluster can count one line more, or where there is
/// another number for a new cluster and the tree has a place for it.
pub proof fn what_fits(state: DrainView, tokens: Seq<Seq<char>>, id: usize)
    ensures
        state.home(tokens) matches Some(home) ==> (state.fits(tokens) <==> cluster_of(
            state.clusters,
            home,
        ).size < usize::MAX),
        state.home(tokens) is None ==> (state.fits(tokens) <==> state.created < usize::MAX && filed(
            state.tree,
            state.config.rules(),
            tokens,
            id,
            state.clusters,
        ) is Some),
        fileable(state.tree, state.config.rules(), tokens) <==> filed(
            state.tree,
            state.config.rules(),
            tokens,
            id,
            state.clusters,
        ) is Some,
        state.home(tokens) is None && state.fits(tokens) ==> Some(
            state.after_training(tokens).tree,
        ) == filed(
            state.tree,
            state.config.rules(),
            tokens,
            (state.created + 1) as usize,
            state.clusters,
        ),
{
}

/// A line that gets a cluster of its own makes it an offer for every line with as many
/// tokens and the same ones at the start.
pub proof fn a_new_cluster_is_offered(
    state: DrainView,
    tokens: Seq<Seq<char>>,
    others: Seq<Seq<char>>,
)
    requires
        state.consistent(),
        state.fits(tokens),
        state.home(tokens) is None,
        tokens.len() == others.len(),
        forall|i: int|
            0 <= i < tokens.len() && i + 1 < state.config.max_node_depth ==> #[trigger] tokens[i]
                == others[i],
    ensures
        ({
            let after = state.after_training(tokens);
            let ids = after.candidates(others);
            ids.len() > 0 && ids.last() == state.created + 1 && holds(after.clusters, ids.last())
        }),
{
    let after = state.after_training(tokens);
    leading_tokens_decide(after, tokens, others);
    filing(
        state.tree,
        state.config.rules(),
        tokens,
        (state.created + 1) as usize,
        state.clusters,
    );
    assert(after.clusters[0].id == state.created + 1);
    assert(holds(after.clusters, after.clusters[0].id));
}

/// A line that gets a cluster of its own draws the next lines to it: one with as many
/// tokens, the same ones at the start and so many the same in all as the threshold
/// asks joins a cluster, and one that agrees with it no less.
pub proof fn similar_lines_are_grouped(
    state: DrainView,
    tokens: Seq<Seq<char>>,
    others: Seq<Seq<char>>,
)
    requires
        state.consistent(),
        state.fits(tokens),
        state.home(tokens) is None,
        tokens.len() == others.len(),
        tokens.len() > 0,
        forall|i: int|
            0 <= i < tokens.len() && i + 1 < state.config.max_node_depth ==> #[trigger] tokens[i]
                == others[i],
        agreements(tokens, others, state.param()) * state.config.sim_th.denominator
            >= state.config.sim_th.numerator * others.len(),
    ensures
        ({
            let after = state.after_training(tokens);
            &&& after.home(others) is Some
            &&& agreements(
                cluster_of(after.clusters, after.home(others)->0).template,
                others,
                state.param(),
            ) >= agreements(tokens, others, state.param())
        }),
{
    let after = state.after_training(tokens);
    let ids = after.candidates(others);
    let k = ids.len() - 1;
    a_new_cluster_is_offered(state, tokens, others);
    a_line_gets_its_own_cluster(state, tokens);
    state.training_keeps_consistent(tokens);
    found_at(after.clusters, 0);
    assert(cluster_of(after.clusters, ids[k]).template == tokens);
    if after.home(others) is None {
        a_close_cluster_is_taken(after, others, after.config.sim_th, false, k);
    } else {
        a_line_joins_the_closest_cluster(after, others, k);
    }
}

} // verus!
