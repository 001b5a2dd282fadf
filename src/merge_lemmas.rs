//! What merging guarantees, stated over the tree model and proved.
use vstd::prelude::*;
use crate::merger::{Tree, build_children, find_key, insert_at, lemma_split_dots_nonempty, merge_children, merge_tree, split_dots};

verus! {

broadcast use vstd::seq::group_seq_axioms;

/// The node of `cs` under key `k`, if any.
pub open spec fn child(cs: Seq<(Seq<char>, Tree)>, k: Seq<char>) -> Option<Tree> {
    match find_key(cs, k) {
        Some(i) => Some(cs[i].1),
        None => None,
    }
}

/// The node at path `p` below `t`; the empty path is `t` itself.
pub open spec fn node_at(t: Tree, p: Seq<Seq<char>>) -> Option<Tree>
    decreases p.len(),
{
    if p.len() == 0 {
        Some(t)
    } else {
        match t {
            Tree::Branch(cs) => match child(cs, p[0]) {
                Some(c) => node_at(c, p.drop_first()),
                None => None,
            },
            Tree::Leaf(_) => None,
        }
    }
}

/// No two children of `cs` share a key.
pub open spec fn distinct_keys(cs: Seq<(Seq<char>, Tree)>) -> bool {
    forall|i: int, j: int| 0 <= i < j < cs.len() ==> cs[i].0 != cs[j].0
}

/// Every subtree of `t` has distinct keys.
pub open spec fn well_formed(t: Tree) -> bool
    decreases t,
{
    match t {
        Tree::Leaf(_) => true,
        Tree::Branch(cs) => distinct_keys(cs) && forall|i: int| 0 <= i < cs.len() ==> well_formed(#[trigger] cs[i].1),
    }
}

pub proof fn lemma_find_key(cs: Seq<(Seq<char>, Tree)>, k: Seq<char>)
    ensures
        match find_key(cs, k) {
            Some(i) => 0 <= i < cs.len() && cs[i].0 == k && forall|j: int| 0 <= j < i ==> cs[j].0 != k,
            None => forall|j: int| 0 <= j < cs.len() ==> cs[j].0 != k,
        },
    decreases cs.len(),
{
    if cs.len() > 0 {
        lemma_find_key(cs.drop_last(), k);
        assert(forall|j: int| 0 <= j < cs.len() - 1 ==> cs.drop_last()[j] == cs[j]);
    }
}

/// With distinct keys, the child under `cs[i].0` is `cs[i].1`.
proof fn lemma_child_at(cs: Seq<(Seq<char>, Tree)>, i: int)
    requires
        distinct_keys(cs),
        0 <= i < cs.len(),
    ensures
        find_key(cs, cs[i].0) == Some(i),
        child(cs, cs[i].0) == Some(cs[i].1),
{
    lemma_find_key(cs, cs[i].0);
}

/// The child of a merged list under `k` combines the children under `k` of
/// the two lists.
proof fn lemma_merge_child(os: Seq<(Seq<char>, Tree)>, ns: Seq<(Seq<char>, Tree)>, k: Seq<char>)
    requires
        distinct_keys(ns),
    ensures
        child(merge_children(os, ns), k) == match (child(os, k), child(ns, k)) {
            (Some(a), Some(b)) => Some(merge_tree(a, b)),
            (None, Some(b)) => Some(b),
            (Some(a), None) => Some(a),
            (None, None) => None::<Tree>,
        },
    decreases ns.len(),
{
    if ns.len() > 0 {
        let init = ns.drop_last();
        assert(distinct_keys(init));
        lemma_merge_child(os, init, k);
        let acc = merge_children(os, init);
        let kl = ns.last().0;
        lemma_find_key(acc, kl);
        lemma_find_key(acc, k);
        lemma_find_key(ns, k);
        lemma_find_key(init, k);
        if kl == k {
            assert forall|j: int| 0 <= j < init.len() implies init[j].0 != k by {
                assert(ns[j] == init[j]);
            }
            lemma_child_at(ns, ns.len() - 1);
            match find_key(acc, k) {
                Some(i) => {
                    let r = acc.update(i, (k, merge_tree(acc[i].1, ns.last().1)));
                    lemma_find_key(r, k);
                    assert(r[i].0 == k);
                },
                None => {
                    let r = acc.push(ns.last());
                    lemma_find_key(r, k);
                    assert(r[acc.len() as int].0 == k);
                },
            }
        } else {
            if let Some(j) = find_key(ns, k) {
                assert(j < ns.len() - 1);
                assert(init[j] == ns[j]);
                lemma_find_key(init, k);
                assert(find_key(init, k) == Some(j)) by {
                    if let Some(j2) = find_key(init, k) {
                        assert(ns[j2] == init[j2]);
                    }
                }
            } else {
                assert forall|j: int| 0 <= j < init.len() implies init[j].0 != k by {
                    assert(ns[j] == init[j]);
                }
            }
            match find_key(acc, kl) {
                Some(i) => {
                    let r = acc.update(i, (kl, merge_tree(acc[i].1, ns.last().1)));
                    lemma_find_key(r, k);
                    if let Some(x) = find_key(acc, k) {
                        assert(r[x] == acc[x]);
                        if let Some(y) = find_key(r, k) {
                            assert(r[y] == acc[y]);
                        }
                    } else {
                        if let Some(y) = find_key(r, k) {
                            assert(r[y] == acc[y]);
                        }
                    }
                },
                None => {
                    let r = acc.push(ns.last());
                    lemma_find_key(r, k);
                    if let Some(x) = find_key(acc, k) {
                        assert(r[x] == acc[x]);
                        if let Some(y) = find_key(r, k) {
                            assert(y < acc.len());
                            assert(r[y] == acc[y]);
                        }
                    } else {
                        if let Some(y) = find_key(r, k) {
                            assert(y < acc.len());
                            assert(r[y] == acc[y]);
                        }
                    }
                },
            }
        }
    }
}


/// Unfolds one step of `node_at` below a subtree.
proof fn lemma_node_at_step(cs: Seq<(Seq<char>, Tree)>, c: Tree, p: Seq<Seq<char>>)
    requires
        p.len() > 0,
        child(cs, p[0]) == Some(c),
    ensures
        node_at(Tree::Branch(cs), p) == node_at(c, p.drop_first()),
{
}

/// The children of a well-formed subtree are well formed.
proof fn lemma_child_well_formed(cs: Seq<(Seq<char>, Tree)>, k: Seq<char>)
    requires
        well_formed(Tree::Branch(cs)),
    ensures
        child(cs, k) matches Some(c) ==> well_formed(c),
{
    lemma_find_key(cs, k);
}

/// Where the new tree has a node at `p`, and that node is a leaf or the old
/// tree has no subtree at `p`, the merged tree has the new tree's node at `p`.
pub proof fn lemma_new_node_kept(o: Tree, n: Tree, p: Seq<Seq<char>>)
    requires
        well_formed(n),
        node_at(n, p) is Some,
        node_at(n, p)->Some_0 is Leaf || !(node_at(o, p) matches Some(Tree::Branch(_))),
    ensures
        node_at(merge_tree(o, n), p) == node_at(n, p),
    decreases p.len(),
{
    if p.len() > 0 {
        let k = p[0];
        let rest = p.drop_first();
        if let (Tree::Branch(os), Tree::Branch(ns)) = (o, n) {
            lemma_merge_child(os, ns, k);
            lemma_child_well_formed(ns, k);
            let nc = child(ns, k)->Some_0;
            match child(os, k) {
                Some(oc) => {
                    lemma_new_node_kept(oc, nc, rest);
                },
                None => {},
            }
        }
    }
}

/// Where the old tree has a leaf at `p`, and the new tree has no node at `p`
/// and no leaf on the way to it, the merged tree keeps the old leaf.
pub proof fn lemma_old_leaf_kept(o: Tree, n: Tree, p: Seq<Seq<char>>)
    requires
        well_formed(n),
        node_at(o, p) matches Some(Tree::Leaf(_)),
        node_at(n, p) is None,
        forall|j: int| 0 <= j < p.len() ==> !(#[trigger] node_at(n, p.take(j)) matches Some(Tree::Leaf(_))),
    ensures
        node_at(merge_tree(o, n), p) == node_at(o, p),
    decreases p.len(),
{
    assert(p.take(0) =~= Seq::<Seq<char>>::empty());
    assert(!(node_at(n, p.take(0)) matches Some(Tree::Leaf(_))));
    assert(p.len() > 0);
    let k = p[0];
    let rest = p.drop_first();
    if let (Tree::Branch(os), Tree::Branch(ns)) = (o, n) {
        lemma_merge_child(os, ns, k);
        lemma_child_well_formed(ns, k);
        let oc = child(os, k)->Some_0;
        match child(ns, k) {
            Some(nc) => {
                assert forall|j: int| 0 <= j < rest.len() implies !(#[trigger] node_at(nc, rest.take(j)) matches Some(Tree::Leaf(_))) by {
                    let q = p.take(j + 1);
                    assert(q[0] == k);
                    assert(q.drop_first() =~= rest.take(j));
                    lemma_node_at_step(ns, nc, q);
                }
                lemma_node_at_step(ns, nc, p);
                lemma_node_at_step(os, oc, p);
                lemma_old_leaf_kept(oc, nc, rest);
            },
            None => {},
        }
    }
}

/// Every proper prefix of a path that leads to a node leads to a subtree.
proof fn lemma_prefix_is_branch(t: Tree, p: Seq<Seq<char>>, j: int)
    requires
        node_at(t, p) is Some,
        0 <= j < p.len(),
    ensures
        node_at(t, p.take(j)) matches Some(Tree::Branch(_)),
    decreases p.len(),
{
    if j == 0 {
        assert(p.take(0) =~= Seq::<Seq<char>>::empty());
    } else {
        if let Tree::Branch(cs) = t {
            let c = child(cs, p[0])->Some_0;
            let q = p.take(j);
            assert(q.drop_first() =~= p.drop_first().take(j - 1));
            lemma_prefix_is_branch(c, p.drop_first(), j - 1);
        }
    }
}

/// A leaf of the merged tree is a leaf, with the same expression, of the new
/// tree or of the old one.
pub proof fn lemma_merged_leaf_from_input(o: Tree, n: Tree, p: Seq<Seq<char>>)
    requires
        well_formed(n),
        node_at(merge_tree(o, n), p) matches Some(Tree::Leaf(_)),
    ensures
        node_at(merge_tree(o, n), p) == node_at(n, p) || node_at(merge_tree(o, n), p) == node_at(o, p),
    decreases p.len(),
{
    if p.len() > 0 {
        let k = p[0];
        let rest = p.drop_first();
        if let (Tree::Branch(os), Tree::Branch(ns)) = (o, n) {
            lemma_merge_child(os, ns, k);
            lemma_child_well_formed(ns, k);
            if let (Some(oc), Some(nc)) = (child(os, k), child(ns, k)) {
                lemma_merged_leaf_from_input(oc, nc, rest);
            }
        }
    }
}

/// A path holds a leaf in `t`.
pub open spec fn leaf_at(t: Tree, p: Seq<Seq<char>>) -> bool {
    node_at(t, p) matches Some(Tree::Leaf(_))
}

/// A path holds a subtree in `t`.
pub open spec fn branch_at(t: Tree, p: Seq<Seq<char>>) -> bool {
    node_at(t, p) matches Some(Tree::Branch(_))
}

/// New wins: at every path where the new tree has a leaf, the merged tree
/// has that same leaf, whatever the old tree holds there.
pub proof fn new_wins(o: Tree, n: Tree, p: Seq<Seq<char>>)
    requires
        well_formed(n),
        leaf_at(n, p),
    ensures
        node_at(merge_tree(o, n), p) == node_at(n, p),
{
    lemma_new_node_kept(o, n, p);
}

/// Old keys are preserved: a leaf of the old tree at a path where the new
/// tree has no node, and no leaf on the way, stays unchanged.
pub proof fn old_preserved(o: Tree, n: Tree, p: Seq<Seq<char>>)
    requires
        well_formed(n),
        leaf_at(o, p),
        node_at(n, p) is None,
        forall|j: int| 0 <= j < p.len() ==> !leaf_at(n, #[trigger] p.take(j)),
    ensures
        node_at(merge_tree(o, n), p) == node_at(o, p),
{
    lemma_old_leaf_kept(o, n, p);
}

/// Shapes are overridden: where one tree has a leaf and the other a subtree
/// at the same path, the merged node there is the new tree's node, whole.
pub proof fn shape_override(o: Tree, n: Tree, p: Seq<Seq<char>>)
    requires
        well_formed(n),
        (leaf_at(o, p) && branch_at(n, p)) || (branch_at(o, p) && leaf_at(n, p)),
    ensures
        node_at(merge_tree(o, n), p) == node_at(n, p),
{
    lemma_new_node_kept(o, n, p);
}

/// Union of keys: where no path is a leaf in one tree and a subtree in the
/// other, the merged tree has a leaf exactly at the paths where the old or
/// the new tree has one.
pub proof fn leaf_paths_union(o: Tree, n: Tree)
    requires
        well_formed(n),
        forall|p: Seq<Seq<char>>| !(leaf_at(o, p) && branch_at(n, p)) && !(branch_at(o, p) && leaf_at(n, p)),
    ensures
        forall|p: Seq<Seq<char>>| #[trigger] leaf_at(merge_tree(o, n), p) <==> (leaf_at(o, p) || leaf_at(n, p)),
{
    assert forall|p: Seq<Seq<char>>| #[trigger] leaf_at(merge_tree(o, n), p) <==> (leaf_at(o, p) || leaf_at(n, p)) by {
        if leaf_at(merge_tree(o, n), p) {
            lemma_merged_leaf_from_input(o, n, p);
        }
        if leaf_at(n, p) {
            lemma_new_node_kept(o, n, p);
        } else if leaf_at(o, p) {
            assert(!branch_at(n, p));
            assert forall|j: int| 0 <= j < p.len() implies !leaf_at(n, #[trigger] p.take(j)) by {
                lemma_prefix_is_branch(o, p, j);
                assert(!(branch_at(o, p.take(j)) && leaf_at(n, p.take(j))));
            }
            lemma_old_leaf_kept(o, n, p);
        }
    }
}

/// Merging a list of distinct, well-formed children with its own first `j`
/// children gives the list back.
proof fn lemma_self_merge_children(cs: Seq<(Seq<char>, Tree)>, j: int)
    requires
        well_formed(Tree::Branch(cs)),
        0 <= j <= cs.len(),
    ensures
        merge_children(cs, cs.take(j)) == cs,
    decreases cs, j,
{
    if j > 0 {
        let ns = cs.take(j);
        assert(ns.drop_last() =~= cs.take(j - 1));
        lemma_self_merge_children(cs, j - 1);
        lemma_child_at(cs, j - 1);
        let c = cs[j - 1].1;
        assert(well_formed(c));
        if let Tree::Branch(sub) = c {
            assert(decreases_to!(cs => cs[j - 1]));
            lemma_self_merge_children(sub, sub.len() as int);
            assert(sub.take(sub.len() as int) =~= sub);
        }
        assert(merge_tree(c, c) == c);
        assert(cs.update(j - 1, (cs[j - 1].0, c)) =~= cs);
    }
}

/// Merging a well-formed tree with itself gives the same tree.
pub proof fn self_merge(t: Tree)
    requires
        well_formed(t),
    ensures
        merge_tree(t, t) == t,
{
    if let Tree::Branch(cs) = t {
        lemma_self_merge_children(cs, cs.len() as int);
        assert(cs.take(cs.len() as int) =~= cs);
    }
}


/// Placing a leaf keeps a well-formed tree well formed.
proof fn lemma_insert_well_formed(cs: Seq<(Seq<char>, Tree)>, path: Seq<Seq<char>>, v: Seq<char>)
    requires
        well_formed(Tree::Branch(cs)),
    ensures
        well_formed(Tree::Branch(insert_at(cs, path, v))),
    decreases path.len(),
{
    if path.len() > 0 {
        let k = path[0];
        let below = path.drop_first();
        lemma_find_key(cs, k);
        let empty = Seq::<(Seq<char>, Tree)>::empty();
        assert(well_formed(Tree::Branch(empty)));
        let r = insert_at(cs, path, v);
        let new_child: Tree = if path.len() == 1 {
            Tree::Leaf(v)
        } else {
            match find_key(cs, k) {
                Some(i) => match cs[i].1 {
                    Tree::Branch(sub) => {
                        assert(well_formed(cs[i].1));
                        lemma_insert_well_formed(sub, below, v);
                        Tree::Branch(insert_at(sub, below, v))
                    },
                    Tree::Leaf(_) => {
                        lemma_insert_well_formed(empty, below, v);
                        Tree::Branch(insert_at(empty, below, v))
                    },
                },
                None => {
                    lemma_insert_well_formed(empty, below, v);
                    Tree::Branch(insert_at(empty, below, v))
                },
            }
        };
        assert(well_formed(new_child));
        match find_key(cs, k) {
            Some(i) => {
                assert(r == cs.update(i, (k, new_child)));
            },
            None => {
                assert(r == cs.push((k, new_child)));
            },
        }
    }
}

/// The tree built from any flat map is well formed, so the merge laws above
/// apply to the trees of documents.
pub proof fn built_tree_well_formed(f: Seq<(Seq<char>, Seq<char>)>)
    ensures
        well_formed(Tree::Branch(build_children(f))),
    decreases f.len(),
{
    if f.len() == 0 {
        assert(well_formed(Tree::Branch(Seq::<(Seq<char>, Tree)>::empty())));
    } else {
        built_tree_well_formed(f.drop_last());
        lemma_insert_well_formed(build_children(f.drop_last()), crate::merger::split_dots(f.last().0), f.last().1);
    }
}


/// The child under `k` after an update or push under another key is unchanged.
proof fn lemma_child_other(cs: Seq<(Seq<char>, Tree)>, k: Seq<char>, k2: Seq<char>, t: Tree)
    requires
        k != k2,
    ensures
        child(match find_key(cs, k2) { Some(i) => cs.update(i, (k2, t)), None => cs.push((k2, t)) }, k) == child(cs, k),
{
    lemma_find_key(cs, k2);
    lemma_find_key(cs, k);
    let r = match find_key(cs, k2) { Some(i) => cs.update(i, (k2, t)), None => cs.push((k2, t)) };
    lemma_find_key(r, k);
    if let Some(x) = find_key(cs, k) {
        assert(r[x] == cs[x]);
        if let Some(y) = find_key(r, k) {
            assert(y < cs.len());
            assert(r[y] == cs[y]);
        }
    } else {
        if let Some(y) = find_key(r, k) {
            assert(y < cs.len());
            assert(r[y] == cs[y]);
        }
    }
}

/// The child under `k` after an update or push under `k` is the new node.
proof fn lemma_child_same(cs: Seq<(Seq<char>, Tree)>, k: Seq<char>, t: Tree)
    ensures
        child(match find_key(cs, k) { Some(i) => cs.update(i, (k, t)), None => cs.push((k, t)) }, k) == Some(t),
{
    lemma_find_key(cs, k);
    let r = match find_key(cs, k) { Some(i) => cs.update(i, (k, t)), None => cs.push((k, t)) };
    lemma_find_key(r, k);
    match find_key(cs, k) {
        Some(i) => {
            assert(r[i].0 == k);
            if let Some(y) = find_key(r, k) {
                if y != i {
                    assert(r[y] == cs[y]);
                }
            }
        },
        None => {
            assert(r[cs.len() as int].0 == k);
            if let Some(y) = find_key(r, k) {
                if y < cs.len() {
                    assert(r[y] == cs[y]);
                }
            }
        },
    }
}

/// Two paths part ways: at some index both have, their segments differ.
pub open spec fn diverge(p: Seq<Seq<char>>, q: Seq<Seq<char>>) -> bool {
    exists|d: int| 0 <= d < p.len() && d < q.len() && p[d] != q[d]
}

/// Placing a leaf at `p` puts that leaf at `p`.
proof fn lemma_insert_here(cs: Seq<(Seq<char>, Tree)>, p: Seq<Seq<char>>, v: Seq<char>)
    requires
        p.len() > 0,
    ensures
        node_at(Tree::Branch(insert_at(cs, p, v)), p) == Some(Tree::Leaf(v)),
    decreases p.len(),
{
    let k = p[0];
    let below = p.drop_first();
    if p.len() == 1 {
        lemma_child_same(cs, k, Tree::Leaf(v));
        lemma_node_at_step(insert_at(cs, p, v), Tree::Leaf(v), p);
        assert(below.len() == 0);
    } else {
        let sub = match find_key(cs, k) {
            Some(i) => match cs[i].1 {
                Tree::Branch(sub) => sub,
                Tree::Leaf(_) => Seq::empty(),
            },
            None => Seq::empty(),
        };
        lemma_insert_here(sub, below, v);
        let t = Tree::Branch(insert_at(sub, below, v));
        assert(insert_at(cs, p, v) == match find_key(cs, k) { Some(i) => cs.update(i, (k, t)), None => cs.push((k, t)) });
        lemma_child_same(cs, k, t);
        lemma_node_at_step(insert_at(cs, p, v), Tree::Branch(insert_at(sub, below, v)), p);
    }
}

/// Placing a leaf at `p` changes nothing at a path that parts ways with `p`.
proof fn lemma_insert_elsewhere(cs: Seq<(Seq<char>, Tree)>, p: Seq<Seq<char>>, v: Seq<char>, q: Seq<Seq<char>>)
    requires
        diverge(p, q),
    ensures
        node_at(Tree::Branch(insert_at(cs, p, v)), q) == node_at(Tree::Branch(cs), q),
    decreases p.len(),
{
    let d = choose|d: int| 0 <= d < p.len() && d < q.len() && p[d] != q[d];
    let k = p[0];
    let below = p.drop_first();
    let r = insert_at(cs, p, v);
    if p[0] != q[0] {
        let t = if p.len() == 1 {
            Tree::Leaf(v)
        } else {
            match find_key(cs, k) {
                Some(i) => match cs[i].1 {
                    Tree::Branch(sub) => Tree::Branch(insert_at(sub, below, v)),
                    Tree::Leaf(_) => Tree::Branch(insert_at(Seq::empty(), below, v)),
                },
                None => Tree::Branch(insert_at(Seq::empty(), below, v)),
            }
        };
        assert(r == match find_key(cs, k) { Some(i) => cs.update(i, (k, t)), None => cs.push((k, t)) });
        lemma_child_other(cs, q[0], k, t);
    } else {
        assert(d > 0);
        assert(p.len() > 1);
        let qb = q.drop_first();
        assert(diverge(below, qb)) by {
            assert(below[d - 1] != qb[d - 1]);
        }
        let sub = match find_key(cs, k) {
            Some(i) => match cs[i].1 {
                Tree::Branch(sub) => sub,
                Tree::Leaf(_) => Seq::empty(),
            },
            None => Seq::empty(),
        };
        lemma_insert_elsewhere(sub, below, v, qb);
        lemma_child_same(cs, k, Tree::Branch(insert_at(sub, below, v)));
        lemma_node_at_step(r, Tree::Branch(insert_at(sub, below, v)), q);
        lemma_find_key(cs, k);
        match find_key(cs, k) {
            Some(i) => {
                lemma_node_at_step(cs, cs[i].1, q);
                if cs[i].1 is Leaf {
                    assert(qb.len() > 0);
                    assert(node_at(Tree::Branch(Seq::<(Seq<char>, Tree)>::empty()), qb) is None);
                }
            },
            None => {
                assert(qb.len() > 0);
                assert(node_at(Tree::Branch(Seq::<(Seq<char>, Tree)>::empty()), qb) is None);
            },
        }
    }
}


/// An entry of a flat map whose key parts ways with every later key is a
/// leaf, holding its expression, of the tree built from the map.
pub proof fn built_entry_is_leaf(f: Seq<(Seq<char>, Seq<char>)>, i: int)
    requires
        0 <= i < f.len(),
        forall|j: int| i < j < f.len() ==> diverge(split_dots(f[i].0), #[trigger] split_dots(f[j].0)),
    ensures
        node_at(Tree::Branch(build_children(f)), split_dots(f[i].0)) == Some(Tree::Leaf(f[i].1)),
    decreases f.len(),
{
    let init = f.drop_last();
    lemma_split_dots_nonempty(f[i].0);
    if i == f.len() - 1 {
        lemma_insert_here(build_children(init), split_dots(f[i].0), f[i].1);
    } else {
        assert forall|j: int| i < j < init.len() implies diverge(split_dots(init[i].0), #[trigger] split_dots(init[j].0)) by {
            assert(init[j] == f[j]);
            assert(split_dots(f[j].0) == split_dots(init[j].0));
        }
        built_entry_is_leaf(init, i);
        assert(diverge(split_dots(f[i].0), split_dots(f[f.len() - 1].0)));
        assert(diverge(split_dots(f.last().0), split_dots(f[i].0))) by {
            let d = choose|d: int| 0 <= d < split_dots(f[i].0).len() && d < split_dots(f[f.len() - 1].0).len()
                && split_dots(f[i].0)[d] != split_dots(f[f.len() - 1].0)[d];
            assert(split_dots(f.last().0)[d] != split_dots(f[i].0)[d]);
        }
        lemma_insert_elsewhere(build_children(init), split_dots(f.last().0), f.last().1, split_dots(f[i].0));
    }
}


/// `q` is a prefix of `p`.
pub open spec fn is_prefix(q: Seq<Seq<char>>, p: Seq<Seq<char>>) -> bool {
    q.len() <= p.len() && q == p.take(q.len() as int)
}

/// After placing a leaf at `p`, a node stands only where one stood before or
/// on the path `p`, and a leaf only where one stood before or at `p`.
proof fn lemma_insert_source(cs: Seq<(Seq<char>, Tree)>, p: Seq<Seq<char>>, v: Seq<char>, q: Seq<Seq<char>>)
    requires
        p.len() > 0,
    ensures
        node_at(Tree::Branch(insert_at(cs, p, v)), q) is Some ==> node_at(Tree::Branch(cs), q) is Some || is_prefix(q, p),
        leaf_at(Tree::Branch(insert_at(cs, p, v)), q) ==> leaf_at(Tree::Branch(cs), q) || q == p,
    decreases p.len(),
{
    if q.len() > 0 {
        let k = p[0];
        let below = p.drop_first();
        let qb = q.drop_first();
        let sub = match find_key(cs, k) {
            Some(i) => match cs[i].1 {
                Tree::Branch(sub) => sub,
                Tree::Leaf(_) => Seq::empty(),
            },
            None => Seq::empty(),
        };
        let t = if p.len() == 1 { Tree::Leaf(v) } else { Tree::Branch(insert_at(sub, below, v)) };
        let r = insert_at(cs, p, v);
        assert(r == match find_key(cs, k) { Some(i) => cs.update(i, (k, t)), None => cs.push((k, t)) });
        if q[0] != k {
            lemma_child_other(cs, q[0], k, t);
        } else {
            lemma_child_same(cs, k, t);
            lemma_node_at_step(r, t, q);
            lemma_find_key(cs, k);
            if let Some(i) = find_key(cs, k) {
                lemma_node_at_step(cs, cs[i].1, q);
            }
            let e = Seq::<(Seq<char>, Tree)>::empty();
            if qb.len() > 0 {
                assert(node_at(Tree::Branch(e), qb) is None);
            }
            if p.len() == 1 {
                if node_at(t, qb) is Some {
                    assert(qb.len() == 0);
                    assert(q =~= p.take(1));
                    assert(q =~= p);
                }
            } else {
                lemma_insert_source(sub, below, v, qb);
                if is_prefix(qb, below) {
                    assert forall|x: int| 0 <= x < q.len() implies q[x] == p.take(q.len() as int)[x] by {
                        if x > 0 {
                            assert(q[x] == qb[x - 1]);
                            assert(qb[x - 1] == below.take(qb.len() as int)[x - 1]);
                        }
                    }
                    assert(q =~= p.take(q.len() as int));
                }
                if qb == below {
                    assert forall|x: int| 0 <= x < q.len() implies q[x] == p[x] by {
                        if x > 0 {
                            assert(q[x] == qb[x - 1]);
                        }
                    }
                    assert(q =~= p);
                }
                if qb.len() == 0 {
                    assert(q =~= p.take(1));
                }
            }
        }
    }
}

/// Every node of the tree built from a flat map lies on the path of one of
/// its keys, and every leaf lies at the path of one of them.
pub proof fn built_nodes_on_key_paths(f: Seq<(Seq<char>, Seq<char>)>, q: Seq<Seq<char>>)
    ensures
        (q.len() > 0 && node_at(Tree::Branch(build_children(f)), q) is Some) ==> exists|j: int| 0 <= j < f.len() && #[trigger] is_prefix(q, split_dots(f[j].0)),
        leaf_at(Tree::Branch(build_children(f)), q) ==> exists|j: int| 0 <= j < f.len() && q == #[trigger] split_dots(f[j].0),
    decreases f.len(),
{
    if f.len() == 0 {
        if q.len() > 0 {
            assert(node_at(Tree::Branch(Seq::<(Seq<char>, Tree)>::empty()), q) is None);
        }
    } else {
        let init = f.drop_last();
        let n = f.len() - 1;
        lemma_split_dots_nonempty(f.last().0);
        lemma_insert_source(build_children(init), split_dots(f.last().0), f.last().1, q);
        built_nodes_on_key_paths(init, q);
        if q.len() > 0 && node_at(Tree::Branch(build_children(f)), q) is Some {
            if node_at(Tree::Branch(build_children(init)), q) is Some {
                let j = choose|j: int| 0 <= j < init.len() && #[trigger] is_prefix(q, split_dots(init[j].0));
                assert(f[j] == init[j]);
                assert(is_prefix(q, split_dots(f[j].0)));
            } else {
                assert(is_prefix(q, split_dots(f[n].0)));
            }
        }
        if leaf_at(Tree::Branch(build_children(f)), q) {
            if leaf_at(Tree::Branch(build_children(init)), q) {
                let j = choose|j: int| 0 <= j < init.len() && q == #[trigger] split_dots(init[j].0);
                assert(f[j] == init[j]);
                assert(q == split_dots(f[j].0));
            } else {
                assert(q == split_dots(f[n].0));
            }
        }
    }
}

} // verus!
