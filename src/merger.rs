//! The nested attribute tree: building it from a flat map and merging two of them.
use vstd::prelude::*;
use crate::document::flat_view;
use crate::merge_lemmas::lemma_find_key;
use crate::serializer::{document_text, render_document};

verus! {

broadcast use vstd::std_specs::vec::group_vec_axioms, vstd::seq::group_seq_axioms;

/// A node of the nested attribute tree: a leaf holds an expression's text,
/// a subtree holds its children in first-seen order.
pub enum Node {
    Leaf(String),
    Tree(Vec<(String, Node)>),
}

/// The mathematical model of a `Node`.
pub enum Tree {
    Leaf(Seq<char>),
    Branch(Seq<(Seq<char>, Tree)>),
}

impl Node {
    pub open spec fn view(&self) -> Tree
        decreases self,
    {
        match self {
            Node::Leaf(e) => Tree::Leaf(e@),
            Node::Tree(cs) => Tree::Branch(children_view(cs@)),
        }
    }
}

/// The model of a list of children.
pub open spec fn children_view(cs: Seq<(String, Node)>) -> Seq<(Seq<char>, Tree)>
    decreases cs,
{
    if cs.len() == 0 {
        Seq::empty()
    } else {
        children_view(cs.drop_last()).push((cs.last().0@, cs.last().1.view()))
    }
}


/// The first index of `cs` whose key is `k`, if any.
pub open spec fn find_key(cs: Seq<(Seq<char>, Tree)>, k: Seq<char>) -> Option<int>
    decreases cs.len(),
{
    if cs.len() == 0 {
        None
    } else {
        match find_key(cs.drop_last(), k) {
            Some(i) => Some(i),
            None => if cs.last().0 == k { Some(cs.len() - 1) } else { None },
        }
    }
}

/// Merges `n` into `o`: two subtrees are merged child by child, and in every
/// other case the new node replaces the old one.
pub open spec fn merge_tree(o: Tree, n: Tree) -> Tree
    decreases n,
{
    match n {
        Tree::Branch(ns) => match o {
            Tree::Branch(os) => Tree::Branch(merge_children(os, ns)),
            Tree::Leaf(_) => n,
        },
        Tree::Leaf(_) => n,
    }
}

/// Merges the children `ns` into `os`, one after another: a key already in
/// `os` has its node merged in place, a new key is appended.
pub open spec fn merge_children(os: Seq<(Seq<char>, Tree)>, ns: Seq<(Seq<char>, Tree)>) -> Seq<(Seq<char>, Tree)>
    decreases ns,
{
    if ns.len() == 0 {
        os
    } else {
        let acc = merge_children(os, ns.drop_last());
        let k = ns.last().0;
        match find_key(acc, k) {
            Some(i) => acc.update(i, (k, merge_tree(acc[i].1, ns.last().1))),
            None => acc.push(ns.last()),
        }
    }
}

pub proof fn lemma_children_view(cs: Seq<(String, Node)>)
    ensures
        children_view(cs).len() == cs.len(),
        forall|i: int| 0 <= i < cs.len() ==> #[trigger] children_view(cs)[i] == (cs[i].0@, cs[i].1@),
    decreases cs.len(),
{
    if cs.len() > 0 {
        lemma_children_view(cs.drop_last());
    }
}

proof fn lemma_children_view_ext(a: Seq<(String, Node)>, b: Seq<(Seq<char>, Tree)>)
    requires
        a.len() == b.len(),
        forall|i: int| 0 <= i < a.len() ==> b[i] == (a[i].0@, a[i].1@),
    ensures
        children_view(a) == b,
{
    lemma_children_view(a);
    assert(children_view(a) =~= b);
}

/// Finds the first child of `cs` whose key is `k`.
fn find_child(cs: &Vec<(String, Node)>, k: &String) -> (r: Option<usize>)
    ensures
        r matches Some(i) ==> i < cs@.len(),
        r matches Some(i) ==> Some(i as int) == find_key(children_view(cs@), k@),
        r is None ==> find_key(children_view(cs@), k@) is None,
{
    proof {
        lemma_children_view(cs@);
        lemma_find_key(children_view(cs@), k@);
    }
    let mut j: usize = 0;
    while j < cs.len()
        invariant
            j <= cs.len(),
            forall|m: int| 0 <= m < j ==> cs@[m].0@ != k@,
        decreases cs.len() - j,
    {
        if cs[j].0 == *k {
            proof {
                lemma_children_view(cs@);
                lemma_find_key(children_view(cs@), k@);
                let v = children_view(cs@);
                assert(v[j as int].0 == k@);
                assert forall|m: int| 0 <= m < j implies v[m].0 != k@ by {
                    assert(v[m] == (cs@[m].0@, cs@[m].1@));
                }
            }
            return Some(j);
        }
        j += 1;
    }
    proof {
        lemma_children_view(cs@);
        lemma_find_key(children_view(cs@), k@);
        let v = children_view(cs@);
        assert forall|m: int| 0 <= m < cs@.len() implies v[m].0 != k@ by {
            assert(v[m] == (cs@[m].0@, cs@[m].1@));
        }
    }
    None
}

/// Merges two trees, `new` overriding or extending `old`.
pub fn merge_node(old: Node, new: Node) -> (r: Node)
    ensures
        r@ == merge_tree(old@, new@),
    decreases new,
{
    match new {
        Node::Tree(nm) => match old {
            Node::Tree(om) => {
                let merged = merge_child_lists(om, nm);
                Node::Tree(merged)
            },
            Node::Leaf(e) => Node::Tree(nm),
        },
        Node::Leaf(e) => Node::Leaf(e),
    }
}

/// Merges the children `nm` into `om`.
#[verifier::loop_isolation(false)]
pub fn merge_child_lists(om: Vec<(String, Node)>, nm: Vec<(String, Node)>) -> (r: Vec<(String, Node)>)
    ensures
        children_view(r@) == merge_children(children_view(om@), children_view(nm@)),
    decreases nm,
{
    let ghost os = children_view(om@);
    let ghost ns = children_view(nm@);
    let ghost nm0 = nm@;
    let ghost nm_g = nm;
    let mut acc = om;
    let mut rest = nm;
    let mut done: usize = 0;
    proof {
        lemma_children_view(nm0);
        assert(ns.take(0) =~= Seq::<(Seq<char>, Tree)>::empty());
        assert(rest@ =~= nm0.skip(0));
        assert(nm0.len() == nm.len());
    }
    while rest.len() > 0
        invariant
            done + rest@.len() == nm0.len(),
            rest@ =~= nm0.skip(done as int),
            ns == children_view(nm0),
            ns.len() == nm0.len(),
            nm0 == nm_g@,
            nm0.len() <= usize::MAX,
            children_view(acc@) == merge_children(os, ns.take(done as int)),
        decreases rest.len(),
    {
        let (k, nv) = rest.remove(0);
        proof {
            lemma_children_view(nm0);
            assert(ns.take(done + 1).drop_last() =~= ns.take(done as int));
            assert((k, nv) == nm0[done as int]);
            assert(ns.take(done + 1).last() == (k@, nv@));
            assert(decreases_to!(nm_g => nm_g@));
            assert(decreases_to!(nm_g@ => nm_g@[done as int]));
            assert(decreases_to!(nm_g@[done as int] => nv));
            assert(decreases_to!(nm_g => nv));
            lemma_children_view(acc@);
        }
        let ghost acc_v = children_view(acc@);
        let ghost acc_old = acc@;
        match find_child(&acc, &k) {
            Some(i) => {
                let (ok, ov) = acc.remove(i);
                let merged = merge_node(ov, nv);
                acc.insert(i, (ok, merged));
                proof {
                    assert(acc@ =~= acc_old.update(i as int, (ok, merged)));
                    assert(acc_v[i as int] == (acc_old[i as int].0@, acc_old[i as int].1@));
                    lemma_find_key(acc_v, k@);
                    lemma_children_view_ext(acc@, acc_v.update(i as int, (k@, merge_tree(acc_v[i as int].1, nv@))));
                }
            },
            None => {
                acc.push((k, nv));
                proof {
                    assert(acc@ =~= acc_old.push((k, nv)));
                    lemma_children_view_ext(acc@, acc_v.push((k@, nv@)));
                }
            },
        }
        done += 1;
    }
    proof {
        assert(ns.take(done as int) =~= ns);
    }
    acc
}


/// The segments of a dotted key: `"a.b"` is `["a", "b"]`, and a key without
/// a dot is one segment.
pub open spec fn split_dots(s: Seq<char>) -> Seq<Seq<char>>
    decreases s.len(),
{
    if s.len() == 0 {
        seq![Seq::empty()]
    } else {
        let rest = split_dots(s.drop_last());
        if s.last() == '.' {
            rest.push(Seq::empty())
        } else {
            rest.update(rest.len() - 1, rest.last().push(s.last()))
        }
    }
}

pub proof fn lemma_split_dots_nonempty(s: Seq<char>)
    ensures
        split_dots(s).len() >= 1,
    decreases s.len(),
{
    if s.len() > 0 {
        lemma_split_dots_nonempty(s.drop_last());
    }
}

/// The views of a list of strings.
pub open spec fn seg_views(p: Seq<String>) -> Seq<Seq<char>> {
    p.map_values(|x: String| x@)
}

/// Splits a dotted key into its segments.
pub fn split_key(k: &String) -> (r: Vec<String>)
    ensures
        seg_views(r@) == split_dots(k@),
{
    let ks = k.as_str();
    let n = ks.unicode_len();
    let mut segs: Vec<String> = Vec::new();
    let mut start: usize = 0;
    let mut i: usize = 0;
    proof {
        assert(k@.take(0) =~= Seq::<char>::empty());
        assert(seg_views(segs@).push(k@.subrange(0, 0)) =~= split_dots(k@.take(0)));
    }
    while i < n
        invariant
            n == k@.len(),
            ks@ == k@,
            start <= i <= n,
            split_dots(k@.take(i as int)) == seg_views(segs@).push(k@.subrange(start as int, i as int)),
        decreases n - i,
    {
        let c = ks.get_char(i);
        proof {
            assert(k@.take(i + 1).drop_last() =~= k@.take(i as int));
        }
        if c == '.' {
            let seg = ks.substring_char(start, i).to_owned();
            let ghost before = segs@;
            segs.push(seg);
            proof {
                assert(seg_views(segs@) =~= seg_views(before).push(k@.subrange(start as int, i as int)));
                assert(k@.subrange(i + 1, i + 1) =~= Seq::<char>::empty());
            }
            start = i + 1;
        } else {
            proof {
                assert(k@.subrange(start as int, i + 1) =~= k@.subrange(start as int, i as int).push(c));
            }
        }
        i += 1;
    }
    let seg = ks.substring_char(start, n).to_owned();
    let ghost before = segs@;
    segs.push(seg);
    proof {
        assert(seg_views(segs@) =~= seg_views(before).push(k@.subrange(start as int, n as int)));
        assert(k@.take(n as int) =~= k@);
    }
    segs
}


/// Places a leaf with expression `v` at `path` below the children `cs`.
/// Missing subtrees on the way are created; a leaf that stands where a
/// subtree is needed is replaced by a fresh subtree.
pub open spec fn insert_at(cs: Seq<(Seq<char>, Tree)>, path: Seq<Seq<char>>, v: Seq<char>) -> Seq<(Seq<char>, Tree)>
    decreases path.len(),
{
    if path.len() == 0 {
        cs
    } else if path.len() == 1 {
        match find_key(cs, path[0]) {
            Some(i) => cs.update(i, (path[0], Tree::Leaf(v))),
            None => cs.push((path[0], Tree::Leaf(v))),
        }
    } else {
        let below = path.drop_first();
        match find_key(cs, path[0]) {
            Some(i) => match cs[i].1 {
                Tree::Branch(sub) => cs.update(i, (path[0], Tree::Branch(insert_at(sub, below, v)))),
                Tree::Leaf(_) => cs.update(i, (path[0], Tree::Branch(insert_at(Seq::empty(), below, v)))),
            },
            None => cs.push((path[0], Tree::Branch(insert_at(Seq::empty(), below, v)))),
        }
    }
}

/// The children built from a flat map, its entries placed in order.
pub open spec fn build_children(f: Seq<(Seq<char>, Seq<char>)>) -> Seq<(Seq<char>, Tree)>
    decreases f.len(),
{
    if f.len() == 0 {
        Seq::empty()
    } else {
        insert_at(build_children(f.drop_last()), split_dots(f.last().0), f.last().1)
    }
}

/// Inserts a leaf holding `value` at the segments `path[start..]` below `tree`.
fn insert_node(tree: &mut Vec<(String, Node)>, path: &Vec<String>, start: usize, value: String)
    requires
        start < path@.len(),
    ensures
        children_view(final(tree)@) == insert_at(children_view(old(tree)@), seg_views(path@).skip(start as int), value@),
    decreases path@.len() - start,
{
    let ghost p = seg_views(path@).skip(start as int);
    let ghost tv = children_view(tree@);
    let ghost t_old = tree@;
    proof {
        lemma_children_view(tree@);
        assert(p[0] == path@[start as int]@);
        assert(p.drop_first() =~= seg_views(path@).skip(start + 1));
    }
    let key = path[start].clone();
    let found = find_child(tree, &key);
    proof {
        lemma_find_key(tv, key@);
    }
    if start == path.len() - 1 {
        match found {
            Some(i) => {
                let (k, _) = tree.remove(i);
                tree.insert(i, (k, Node::Leaf(value)));
                proof {
                    assert(tree@ =~= t_old.update(i as int, (k, Node::Leaf(value))));
                    lemma_children_view_ext(tree@, tv.update(i as int, (p[0], Tree::Leaf(value@))));
                }
            },
            None => {
                tree.push((key, Node::Leaf(value)));
                proof {
                    assert(tree@ =~= t_old.push((key, Node::Leaf(value))));
                    lemma_children_view_ext(tree@, tv.push((p[0], Tree::Leaf(value@))));
                }
            },
        }
    } else {
        match found {
            Some(i) => {
                let (k, n) = tree.remove(i);
                let mut sub = match n {
                    Node::Tree(m) => m,
                    Node::Leaf(_) => Vec::new(),
                };
                proof {
                    assert(children_view(Seq::<(String, Node)>::empty()) =~= Seq::<(Seq<char>, Tree)>::empty());
                }
                insert_node(&mut sub, path, start + 1, value);
                tree.insert(i, (k, Node::Tree(sub)));
                proof {
                    assert(tree@ =~= t_old.update(i as int, (k, Node::Tree(sub))));
                    lemma_children_view_ext(tree@, insert_at(tv, p, value@));
                }
            },
            None => {
                let mut sub: Vec<(String, Node)> = Vec::new();
                proof {
                    assert(children_view(sub@) =~= Seq::<(Seq<char>, Tree)>::empty());
                }
                insert_node(&mut sub, path, start + 1, value);
                tree.push((key, Node::Tree(sub)));
                proof {
                    assert(tree@ =~= t_old.push((key, Node::Tree(sub))));
                    lemma_children_view_ext(tree@, insert_at(tv, p, value@));
                }
            },
        }
    }
}

/// Builds the nested tree of a flat map of dotted keys to expressions.
pub fn build_tree(flat: &Vec<(String, String)>) -> (r: Vec<(String, Node)>)
    ensures
        children_view(r@) == build_children(flat_view(flat@)),
{
    let mut tree: Vec<(String, Node)> = Vec::new();
    let mut i: usize = 0;
    proof {
        assert(children_view(tree@) =~= Seq::<(Seq<char>, Tree)>::empty());
        assert(flat_view(flat@).take(0) =~= Seq::<(Seq<char>, Seq<char>)>::empty());
    }
    while i < flat.len()
        invariant
            i <= flat@.len(),
            children_view(tree@) == build_children(flat_view(flat@).take(i as int)),
        decreases flat@.len() - i,
    {
        let path = split_key(&flat[i].0);
        proof {
            lemma_split_dots_nonempty(flat@[i as int].0@);
            assert(flat_view(flat@).take(i + 1).drop_last() =~= flat_view(flat@).take(i as int));
            assert(seg_views(path@).skip(0) =~= seg_views(path@));
        }
        insert_node(&mut tree, &path, 0, flat[i].1.clone());
        i += 1;
    }
    proof {
        assert(flat_view(flat@).take(i as int) =~= flat_view(flat@));
    }
    tree
}


/// The merged children of two flat maps: each is built into a tree, and the
/// new tree is merged into the old one.
pub open spec fn merged_children(old_flat: Seq<(Seq<char>, Seq<char>)>, new_flat: Seq<(Seq<char>, Seq<char>)>) -> Seq<(Seq<char>, Tree)> {
    merge_children(build_children(old_flat), build_children(new_flat))
}

/// Builds the trees of two flat maps, merges the new into the old, and
/// returns the text of the merged tree.
pub fn merge_trees(old_map: &Vec<(String, String)>, new_map: &Vec<(String, String)>) -> (r: Vec<(String, Node)>)
    ensures
        children_view(r@) == merged_children(flat_view(old_map@), flat_view(new_map@)),
{
    let old_tree = build_tree(old_map);
    let new_tree = build_tree(new_map);
    merge_child_lists(old_tree, new_tree)
}

/// Merges two flat maps into a nested tree and returns its text.
pub fn merge_maps(old_map: Vec<(String, String)>, new_map: Vec<(String, String)>) -> (r: String)
    ensures
        r@ == document_text(None, merged_children(flat_view(old_map@), flat_view(new_map@))),
{
    let full = merge_trees(&old_map, &new_map);
    render_document(&None, &full)
}

} // verus!
