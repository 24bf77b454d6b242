//! How the prefix tree grows, and what of it stays the same.

use crate::extraction::cluster::{holds, ClusterView};
use crate::extraction::tree::{
    branch, child_keys, descent, filed, grown, is_leaf, layer, leaf_of, live_ids, with_node, Path,
    Rules, Tree,
};
use crate::text::decimal;
use vstd::prelude::*;

verus! {

/// A tree has a root, and every other node of it one above. The nodes have finitely
/// many children. A node below the root keeps to the limit on its children, with
/// the child for any token counted in before it is there, and no node lies lower
/// than the last layer.
pub open spec fn well_grown(tree: Tree, rules: Rules) -> bool {
    &&& tree.contains_key(Seq::<Seq<char>>::empty())
    &&& forall|path: Path| #[trigger]
        tree.contains_key(path) && path.len() > 0 ==> tree.contains_key(path.drop_last())
    &&& forall|path: Path| (#[trigger] child_keys(tree, path)).finite()
    &&& rules.children > 0 ==> forall|path: Path|
        path.len() > 0 ==> (#[trigger] child_keys(tree, path)).insert(rules.param).len()
            <= rules.children
    &&& rules.depth > 0 ==> forall|path: Path| #[trigger]
        tree.contains_key(path) ==> path.len() <= rules.depth
}

proof fn child_keys_with_node(tree: Tree, parent: Path, key: Seq<char>, path: Path)
    ensures
        child_keys(with_node(tree, parent.push(key)), path) == if path == parent {
            child_keys(tree, path).insert(key)
        } else {
            child_keys(tree, path)
        },
{
    let node = parent.push(key);
    assert(node.drop_last() == parent);
    assert(node.last() == key);
    assert forall|k: Seq<char>| #[trigger] path.push(k) == node implies path == parent && k == key by {
        assert(path.push(k).drop_last() == path);
        assert(path.push(k).last() == k);
    }
    if path == parent {
        assert(child_keys(with_node(tree, node), path) =~= child_keys(tree, path).insert(key));
    } else {
        assert(child_keys(with_node(tree, node), path) =~= child_keys(tree, path));
    }
}

/// A node more under a key that `branch` picks keeps a tree well grown.
proof fn branch_grows_well(tree: Tree, rules: Rules, parent: Path, token: Seq<char>)
    requires
        well_grown(tree, rules),
        0 < parent.len() < rules.depth,
        tree.contains_key(parent),
        branch(tree, rules, parent, token) is Some,
    ensures
        well_grown(with_node(tree, parent.push(branch(tree, rules, parent, token)->0)), rules),
{
    let key = branch(tree, rules, parent, token)->0;
    let after = with_node(tree, parent.push(key));
    assert(parent.push(key).drop_last() =~= parent);
    assert forall|path: Path| (#[trigger] child_keys(after, path)).finite() by {
        child_keys_with_node(tree, parent, key, path);
        assert(child_keys(tree, path).finite());
    }
    if rules.children > 0 {
        assert forall|path: Path| path.len() > 0 implies (#[trigger] child_keys(
            after,
            path,
        )).insert(rules.param).len() <= rules.children by {
            child_keys_with_node(tree, parent, key, path);
            assert(child_keys(tree, path).finite());
            assert(child_keys(tree, path).insert(rules.param).len() <= rules.children);
            assert(child_keys(tree, path).insert(rules.param).insert(key) =~= child_keys(
                tree,
                path,
            ).insert(key).insert(rules.param));
        }
    }
}

proof fn first_layer_grows_well(tree: Tree, rules: Rules, count: nat)
    requires
        well_grown(tree, rules),
    ensures
        well_grown(with_node(tree, layer(count)), rules),
{
    let root: Path = Seq::empty();
    let key = decimal(count);
    let after = with_node(tree, layer(count));
    assert(root.push(key) =~= layer(count));
    assert(layer(count).drop_last() =~= root);
    assert forall|path: Path| (#[trigger] child_keys(after, path)).finite() by {
        child_keys_with_node(tree, root, key, path);
        assert(child_keys(tree, path).finite());
    }
    if rules.children > 0 {
        assert forall|path: Path| path.len() > 0 implies (#[trigger] child_keys(
            after,
            path,
        )).insert(rules.param).len() <= rules.children by {
            child_keys_with_node(tree, root, key, path);
            assert(child_keys(tree, path).insert(rules.param).len() <= rules.children);
        }
    }
}

/// The nodes on the way to a node are there.
proof fn nodes_above(tree: Tree, rules: Rules, path: Path, above: Path)
    requires
        well_grown(tree, rules),
        tree.contains_key(path),
        above.is_prefix_of(path),
    ensures
        tree.contains_key(above),
    decreases path.len(),
{
    if above.len() < path.len() {
        assert(above.is_prefix_of(path.drop_last()));
        nodes_above(tree, rules, path.drop_last(), above);
    } else {
        assert(above =~= path);
    }
}

/// What `grown` adds to a tree are empty nodes below the given one; the leaf that
/// it gives is there afterwards, and is where the tokens lead.
pub proof fn growth(tree: Tree, rules: Rules, tokens: Seq<Seq<char>>, path: Path, depth: nat)
    requires
        well_grown(tree, rules),
        tree.contains_key(path),
        path.len() == depth,
        depth > 0,
    ensures
        rules.children > 0 ==> grown(tree, rules, tokens, path, depth) is Some,
        grown(tree, rules, tokens, path, depth) matches Some((tall, leaf)) ==> {
            &&& well_grown(tall, rules)
            &&& leaf.len() > 0
            &&& leaf[0] == path[0]
            &&& tall.contains_key(leaf)
            &&& path.is_prefix_of(leaf)
            &&& descent(tall, rules, tokens, path, depth) == Some(leaf)
            &&& tree.contains_key(leaf) ==> descent(tree, rules, tokens, path, depth) == Some(leaf)
            &&& forall|p: Path| #[trigger]
                tree.contains_key(p) ==> tall.contains_key(p) && tall[p] == tree[p]
            &&& forall|p: Path| #[trigger]
                tall.contains_key(p) && !tree.contains_key(p) ==> p.len() > path.len() && tall[p]
                    == Seq::<usize>::empty()
        },
    decreases tokens.len() - depth,
{
    if !is_leaf(rules, tokens, depth) {
        let token = tokens[depth - 1];
        assert(child_keys(tree, path).finite());
        assert(rules.children > 0 ==> child_keys(tree, path).insert(rules.param).len()
            <= rules.children);
        if branch(tree, rules, path, token) is Some {
            let key = branch(tree, rules, path, token)->0;
            let below = path.push(key);
            let next = with_node(tree, below);
            branch_grows_well(tree, rules, path, token);
            growth(next, rules, tokens, below, depth + 1);
            if grown(next, rules, tokens, below, depth + 1) is Some {
                let (tall, leaf) = grown(next, rules, tokens, below, depth + 1)->0;
                let own = path.push(token);
                assert(tall.contains_key(below));
                assert(below.drop_last() =~= path);
                if tree.contains_key(leaf) {
                    nodes_above(tree, rules, leaf, below);
                }
                if key != token {
                    assert(!tree.contains_key(own));
                    assert(own.last() == token && below.last() == key);
                    assert(!next.contains_key(own));
                    assert(!tall.contains_key(own));
                }
                assert forall|p: Path| #[trigger] tree.contains_key(p) implies tall.contains_key(p)
                    && tall[p] == tree[p] by {
                    assert(next.contains_key(p));
                }
                assert forall|p: Path| #[trigger]
                    tall.contains_key(p) && !tree.contains_key(p) implies p.len() > path.len()
                    && tall[p] == Seq::<usize>::empty() by {
                    if next.contains_key(p) {
                        assert(p == below);
                    }
                }
            }
        }
    }
}

/// What comes of filing a new cluster for a line: the line leads to a leaf that
/// holds the cluster last, after clusters that were there before; the other
/// nodes hold what they held.
pub proof fn filing(
    tree: Tree,
    rules: Rules,
    tokens: Seq<Seq<char>>,
    id: usize,
    clusters: Seq<ClusterView>,
)
    requires
        well_grown(tree, rules),
    ensures
        rules.children > 0 ==> filed(tree, rules, tokens, id, clusters) is Some,
        filed(tree, rules, tokens, id, clusters) matches Some(after) ==> {
            &&& well_grown(after, rules)
            &&& leaf_of(after, rules, tokens) matches Some(leaf) && {
                let before = if tree.contains_key(leaf) {
                    tree[leaf]
                } else {
                    Seq::empty()
                };
                &&& after.contains_key(leaf)
                &&& leaf.len() > 0
                &&& leaf[0] == decimal(tokens.len())
                &&& tree.contains_key(leaf) ==> leaf_of(tree, rules, tokens) == Some(leaf)
                &&& after[leaf] == if tokens.len() == 0 {
                    before.push(id)
                } else {
                    live_ids(before, clusters).push(id)
                }
                &&& forall|p: Path| #[trigger]
                    after.contains_key(p) && p != leaf ==> after[p] == if tree.contains_key(p) {
                        tree[p]
                    } else {
                        Seq::empty()
                    }
            }
        },
{
    let first = layer(tokens.len());
    let base = with_node(tree, first);
    first_layer_grows_well(tree, rules, tokens.len());
    growth(base, rules, tokens, first, 1);
    if filed(tree, rules, tokens, id, clusters) is Some {
        let after = filed(tree, rules, tokens, id, clusters)->0;
        let (tall, leaf) = if tokens.len() == 0 {
            (base, first)
        } else {
            grown(base, rules, tokens, first, 1)->0
        };
        assert(tall.contains_key(leaf));
        assert(forall|p: Path| #[trigger] after.contains_key(p) <==> tall.contains_key(p));
        same_nodes_same_children(tall, after, rules);
        same_nodes_same_descent(tall, after, rules, tokens, first, 1);
        assert(base.contains_key(first));
        assert(tall.contains_key(first));
        assert(leaf_of(after, rules, tokens) == Some(leaf));
        if tree.contains_key(leaf) {
            nodes_above(tree, rules, leaf, first);
        }
        assert forall|p: Path| #[trigger] tall.contains_key(p) implies tall[p]
            == if tree.contains_key(p) {
            tree[p]
        } else {
            Seq::empty()
        } by {
            if base.contains_key(p) {
                assert(tall[p] == base[p]);
            }
        }
    }
}

proof fn same_nodes_same_children(a: Tree, b: Tree, rules: Rules)
    requires
        well_grown(a, rules),
        forall|p: Path| #[trigger] b.contains_key(p) <==> a.contains_key(p),
    ensures
        well_grown(b, rules),
{
    assert forall|path: Path| #[trigger] child_keys(b, path) == child_keys(a, path) by {
        assert(child_keys(b, path) =~= child_keys(a, path));
    }
}

proof fn same_nodes_same_descent(
    a: Tree,
    b: Tree,
    rules: Rules,
    tokens: Seq<Seq<char>>,
    path: Path,
    depth: nat,
)
    requires
        forall|p: Path| #[trigger] b.contains_key(p) <==> a.contains_key(p),
    ensures
        descent(b, rules, tokens, path, depth) == descent(a, rules, tokens, path, depth),
    decreases tokens.len() - depth,
{
    if !is_leaf(rules, tokens, depth) {
        same_nodes_same_descent(a, b, rules, tokens, path.push(tokens[depth - 1]), depth + 1);
        same_nodes_same_descent(a, b, rules, tokens, path.push(rules.param), depth + 1);
    }
}

/// Where the tokens lead is a node of the tree, in their own first layer.
pub proof fn descent_arrives(
    tree: Tree,
    rules: Rules,
    tokens: Seq<Seq<char>>,
    path: Path,
    depth: nat,
)
    requires
        tree.contains_key(path),
        path.len() > 0,
    ensures
        descent(tree, rules, tokens, path, depth) matches Some(leaf) ==> tree.contains_key(leaf)
            && leaf.len() > 0 && leaf[0] == path[0],
    decreases tokens.len() - depth,
{
    if !is_leaf(rules, tokens, depth) {
        let own = path.push(tokens[depth - 1]);
        let any = path.push(rules.param);
        if tree.contains_key(own) {
            descent_arrives(tree, rules, tokens, own, depth + 1);
        } else if tree.contains_key(any) {
            descent_arrives(tree, rules, tokens, any, depth + 1);
        }
    }
}

/// What is left of a list of identifiers was in it.
pub proof fn live_ids_are_ids(ids: Seq<usize>, clusters: Seq<ClusterView>)
    ensures
        forall|i: int|
            0 <= i < live_ids(ids, clusters).len() ==> ids.contains(
                #[trigger] live_ids(ids, clusters)[i],
            ),
    decreases ids.len(),
{
    if ids.len() > 0 {
        let front = ids.drop_last();
        live_ids_are_ids(front, clusters);
        assert forall|i: int| 0 <= i < live_ids(ids, clusters).len() implies ids.contains(
            #[trigger] live_ids(ids, clusters)[i],
        ) by {
            let id = live_ids(ids, clusters)[i];
            if i < live_ids(front, clusters).len() {
                assert(front.contains(live_ids(front, clusters)[i]));
                let j = choose|j: int| 0 <= j < front.len() && front[j] == id;
                assert(ids[j] == id);
            } else {
                assert(ids[ids.len() - 1] == id);
            }
        }
    }
}

} // verus!
