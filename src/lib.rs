//! Merges two Nix configuration documents: every key of the new document
//! overrides or extends the old one, nested blocks are kept, and keys that
//! the new document lacks stay as they were.
use vstd::prelude::*;

pub mod ast_utils;
pub mod document;
pub mod merge_lemmas;
pub mod merger;
pub mod patch;
pub mod path_normalizer;
pub mod serializer;
pub mod syntax;

use crate::ast_utils::{extract_kv_pairs, extracted};
use crate::syntax::parsable;
use crate::document::{Document, flat_of, flatten};
use crate::merger::seg_views;
use crate::merger::{lemma_split_dots_nonempty, split_dots, Tree, build_children, merge_tree, merged_children, merge_trees};
use crate::merge_lemmas::{lemma_merged_leaf_from_input, built_nodes_on_key_paths, is_prefix, built_entry_is_leaf, diverge, well_formed, branch_at, built_tree_well_formed, leaf_at, leaf_paths_union, new_wins, node_at, old_preserved, self_merge, shape_override};
use crate::serializer::{document_text, render_document};

verus! {

/// Why a document could not be read.
pub enum MergeError {
    /// The text is not valid Nix; the syntax errors that the parser reported.
    Parse(Vec<String>),
    /// The document is not an attribute set, nor lambdas wrapping one.
    Shape,
}

/// The model of a `MergeError`.
pub enum ErrorView {
    Parse(Seq<Seq<char>>),
    Shape,
}

impl MergeError {
    pub open spec fn view(&self) -> ErrorView {
        match self {
            MergeError::Parse(e) => ErrorView::Parse(seg_views(e@)),
            MergeError::Shape => ErrorView::Shape,
        }
    }
}

/// The result of merging two texts: the first error in reading them, else
/// the merged tree of their flat maps, rendered after the old header, else
/// the new one.
pub open spec fn merged_result(old: Seq<char>, new: Seq<char>) -> Result<Seq<char>, ErrorView> {
    match extracted(old) {
        Err(e) => Err(e),
        Ok(a) => match extracted(new) {
            Err(e) => Err(e),
            Ok(b) => Ok(document_text(if a.0 is Some { a.0 } else { b.0 }, merged_children(a.1, b.1))),
        },
    }
}

/// The header of a merged document: the old one's, else the new one's.
pub open spec fn merged_header(old: &Document, new: &Document) -> Option<Seq<char>> {
    match old.header {
        Some(h) => Some(h@),
        None => match new.header {
            Some(h) => Some(h@),
            None => None,
        },
    }
}

/// The text of the merge of two documents.
pub open spec fn merged_text(old: &Document, new: &Document) -> Seq<char> {
    document_text(merged_header(old, new), merged_children(flat_of(old.body@), flat_of(new.body@)))
}

/// Merges two read documents: their flat maps are built into trees, the new
/// tree is merged into the old one, and the result is rendered after the
/// old header, else the new one.
pub fn merge_documents(old: &Document, new: &Document) -> (r: String)
    ensures
        r@ == merged_text(old, new),
{
    let header = match &old.header {
        Some(h) => Some(h.clone()),
        None => match &new.header {
            Some(h) => Some(h.clone()),
            None => None,
        },
    };
    let old_map = flatten(&old.body);
    let new_map = flatten(&new.body);
    let full = merge_trees(&old_map, &new_map);
    render_document(&header, &full)
}

/// The tree of a document's flat map.
pub open spec fn document_tree(d: &Document) -> Tree {
    Tree::Branch(build_children(flat_of(d.body@)))
}

/// The merged tree of two documents is the merge of their trees.
pub proof fn merged_tree_is_merge(old: &Document, new: &Document)
    ensures
        Tree::Branch(merged_children(flat_of(old.body@), flat_of(new.body@))) == merge_tree(document_tree(old), document_tree(new)),
{
}

/// New wins: where the new document's tree has a leaf, the merged tree has
/// that same leaf.
pub proof fn documents_new_wins(old: &Document, new: &Document, p: Seq<Seq<char>>)
    requires
        leaf_at(document_tree(new), p),
    ensures
        node_at(merge_tree(document_tree(old), document_tree(new)), p) == node_at(document_tree(new), p),
{
    built_tree_well_formed(flat_of(new.body@));
    new_wins(document_tree(old), document_tree(new), p);
}

/// Old keys are kept: a leaf of the old document's tree, at a path where the
/// new one has no node and no leaf on the way, stays unchanged.
pub proof fn documents_old_preserved(old: &Document, new: &Document, p: Seq<Seq<char>>)
    requires
        leaf_at(document_tree(old), p),
        node_at(document_tree(new), p) is None,
        forall|j: int| 0 <= j < p.len() ==> !leaf_at(document_tree(new), #[trigger] p.take(j)),
    ensures
        node_at(merge_tree(document_tree(old), document_tree(new)), p) == node_at(document_tree(old), p),
{
    built_tree_well_formed(flat_of(new.body@));
    old_preserved(document_tree(old), document_tree(new), p);
}

/// Shapes are overridden: where one document has a leaf and the other a
/// subtree at a path, the merged node there is the new document's, whole.
pub proof fn documents_shape_override(old: &Document, new: &Document, p: Seq<Seq<char>>)
    requires
        (leaf_at(document_tree(old), p) && branch_at(document_tree(new), p))
            || (branch_at(document_tree(old), p) && leaf_at(document_tree(new), p)),
    ensures
        node_at(merge_tree(document_tree(old), document_tree(new)), p) == node_at(document_tree(new), p),
{
    built_tree_well_formed(flat_of(new.body@));
    shape_override(document_tree(old), document_tree(new), p);
}

/// Union of keys: where no path is a leaf in one document and a subtree in
/// the other, the merged tree's leaves lie exactly at the paths of the old
/// document's leaves and of the new one's.
pub proof fn documents_leaf_union(old: &Document, new: &Document)
    requires
        forall|p: Seq<Seq<char>>| !(leaf_at(document_tree(old), p) && branch_at(document_tree(new), p))
            && !(branch_at(document_tree(old), p) && leaf_at(document_tree(new), p)),
    ensures
        forall|p: Seq<Seq<char>>| #[trigger] leaf_at(merge_tree(document_tree(old), document_tree(new)), p)
            <==> (leaf_at(document_tree(old), p) || leaf_at(document_tree(new), p)),
{
    built_tree_well_formed(flat_of(new.body@));
    leaf_paths_union(document_tree(old), document_tree(new));
}

/// Merging a document with itself gives the text of the document's own tree:
/// the same keys with the same expressions, under the same header.
pub proof fn self_merge_document(d: &Document)
    ensures
        merged_text(d, d) == document_text(merged_header(d, d), build_children(flat_of(d.body@))),
{
    let cs = build_children(flat_of(d.body@));
    built_tree_well_formed(flat_of(d.body@));
    self_merge(Tree::Branch(cs));
}

/// The tree read from a text that reads without error.
pub open spec fn text_tree(code: Seq<char>) -> Tree {
    Tree::Branch(build_children(extracted(code)->Ok_0.1))
}

/// The header of the merge of two texts: the old one's, else the new one's.
pub open spec fn text_header(old: Seq<char>, new: Seq<char>) -> Option<Seq<char>> {
    if extracted(old)->Ok_0.0 is Some { extracted(old)->Ok_0.0 } else { extracted(new)->Ok_0.0 }
}

/// Merging two texts fails exactly when one of them cannot be read, and with
/// the old text's error first.
pub proof fn text_merge_errors(old: Seq<char>, new: Seq<char>)
    ensures
        merged_result(old, new) is Err <==> (extracted(old) is Err || extracted(new) is Err),
        extracted(old) matches Err(e) ==> merged_result(old, new) == Err::<Seq<char>, ErrorView>(e),
{
}

/// Where both texts read, their merge succeeds: it is the text of the merge
/// of their trees, after the old header, else the new one; the new tree is
/// well formed, so the laws of `merge_lemmas` hold of that merge.
pub proof fn text_merge_is_tree_merge(old: Seq<char>, new: Seq<char>)
    requires
        extracted(old) is Ok,
        extracted(new) is Ok,
    ensures
        merged_result(old, new) == Ok::<Seq<char>, ErrorView>(document_text(text_header(old, new), merge_tree(text_tree(old), text_tree(new))->Branch_0)),
        well_formed(text_tree(new)),
        well_formed(text_tree(old)),
{
    built_tree_well_formed(extracted(new)->Ok_0.1);
    built_tree_well_formed(extracted(old)->Ok_0.1);
}

/// Merging a text with itself succeeds where the text reads, and gives the
/// text of its own tree under its own header.
pub proof fn text_self_merge(d: Seq<char>)
    requires
        extracted(d) is Ok,
    ensures
        merged_result(d, d) == Ok::<Seq<char>, ErrorView>(document_text(extracted(d)->Ok_0.0, build_children(extracted(d)->Ok_0.1))),
{
    built_tree_well_formed(extracted(d)->Ok_0.1);
    self_merge(text_tree(d));
}

/// New wins: where the new text's tree has a leaf, the merged tree has that
/// same leaf.
pub proof fn text_new_wins(old: Seq<char>, new: Seq<char>, p: Seq<Seq<char>>)
    requires
        extracted(old) is Ok,
        extracted(new) is Ok,
        leaf_at(text_tree(new), p),
    ensures
        node_at(merge_tree(text_tree(old), text_tree(new)), p) == node_at(text_tree(new), p),
{
    text_merge_is_tree_merge(old, new);
    new_wins(text_tree(old), text_tree(new), p);
}

/// New wins, on flat maps: an entry of the new text's flat map whose key
/// parts ways with every other key of that map (no key is a dotted prefix of
/// another) is, in the merged tree, a leaf holding the new expression,
/// whatever the old text holds at that key.
pub proof fn text_new_entry_wins(old: Seq<char>, new: Seq<char>, i: int)
    requires
        extracted(old) is Ok,
        extracted(new) is Ok,
        0 <= i < extracted(new)->Ok_0.1.len(),
        forall|j: int| 0 <= j < extracted(new)->Ok_0.1.len() && j != i ==>
            diverge(split_dots(extracted(new)->Ok_0.1[i].0), #[trigger] split_dots(extracted(new)->Ok_0.1[j].0)),
    ensures
        node_at(merge_tree(text_tree(old), text_tree(new)), split_dots(extracted(new)->Ok_0.1[i].0))
            == Some(Tree::Leaf(extracted(new)->Ok_0.1[i].1)),
{
    let f = extracted(new)->Ok_0.1;
    built_entry_is_leaf(f, i);
    text_new_wins(old, new, split_dots(f[i].0));
}

/// Old keys are kept: a leaf of the old text's tree, at a path where the new
/// tree has no node and no leaf on the way, stays unchanged.
pub proof fn text_old_preserved(old: Seq<char>, new: Seq<char>, p: Seq<Seq<char>>)
    requires
        extracted(old) is Ok,
        extracted(new) is Ok,
        leaf_at(text_tree(old), p),
        node_at(text_tree(new), p) is None,
        forall|j: int| 0 <= j < p.len() ==> !leaf_at(text_tree(new), #[trigger] p.take(j)),
    ensures
        node_at(merge_tree(text_tree(old), text_tree(new)), p) == node_at(text_tree(old), p),
{
    text_merge_is_tree_merge(old, new);
    old_preserved(text_tree(old), text_tree(new), p);
}

/// Old keys are kept, on flat maps: an entry of the old text's flat map
/// whose key parts ways with every other key of the old map and with every
/// key of the new map is, in the merged tree, a leaf holding the old
/// expression.
pub proof fn text_old_entry_kept(old: Seq<char>, new: Seq<char>, i: int)
    requires
        extracted(old) is Ok,
        extracted(new) is Ok,
        0 <= i < extracted(old)->Ok_0.1.len(),
        forall|j: int| 0 <= j < extracted(old)->Ok_0.1.len() && j != i ==>
            diverge(split_dots(extracted(old)->Ok_0.1[i].0), #[trigger] split_dots(extracted(old)->Ok_0.1[j].0)),
        forall|j: int| 0 <= j < extracted(new)->Ok_0.1.len() ==>
            diverge(split_dots(extracted(old)->Ok_0.1[i].0), #[trigger] split_dots(extracted(new)->Ok_0.1[j].0)),
    ensures
        node_at(merge_tree(text_tree(old), text_tree(new)), split_dots(extracted(old)->Ok_0.1[i].0))
            == Some(Tree::Leaf(extracted(old)->Ok_0.1[i].1)),
{
    let fo = extracted(old)->Ok_0.1;
    let fnew = extracted(new)->Ok_0.1;
    let p = split_dots(fo[i].0);
    lemma_split_dots_nonempty(fo[i].0);
    built_entry_is_leaf(fo, i);
    built_nodes_on_key_paths(fnew, p);
    if node_at(text_tree(new), p) is Some {
        let j = choose|j: int| 0 <= j < fnew.len() && #[trigger] is_prefix(p, split_dots(fnew[j].0));
        let pj = split_dots(fnew[j].0);
        assert(diverge(p, pj));
        let d = choose|d: int| 0 <= d < p.len() && d < pj.len() && p[d] != pj[d];
        assert(p[d] == pj.take(p.len() as int)[d]);
    }
    assert forall|j: int| 0 <= j < p.len() implies !leaf_at(text_tree(new), #[trigger] p.take(j)) by {
        built_nodes_on_key_paths(fnew, p.take(j));
        if leaf_at(text_tree(new), p.take(j)) {
            let m = choose|m: int| 0 <= m < fnew.len() && p.take(j) == #[trigger] split_dots(fnew[m].0);
            let pm = split_dots(fnew[m].0);
            assert(diverge(p, pm));
            let d = choose|d: int| 0 <= d < p.len() && d < pm.len() && p[d] != pm[d];
            assert(pm[d] == p.take(j)[d]);
        }
    }
    text_old_preserved(old, new, p);
}

/// Union of keys, on flat maps: every leaf of the merged tree lies at the
/// key path of an entry of the old text's flat map or of the new one's;
/// with `text_new_entry_wins` and `text_old_entry_kept`, the merged keys are
/// those of both maps where keys part ways.
pub proof fn text_merged_leaves_from_keys(old: Seq<char>, new: Seq<char>, q: Seq<Seq<char>>)
    requires
        extracted(old) is Ok,
        extracted(new) is Ok,
        leaf_at(merge_tree(text_tree(old), text_tree(new)), q),
    ensures
        (exists|j: int| 0 <= j < extracted(old)->Ok_0.1.len() && q == #[trigger] split_dots(extracted(old)->Ok_0.1[j].0))
            || (exists|j: int| 0 <= j < extracted(new)->Ok_0.1.len() && q == #[trigger] split_dots(extracted(new)->Ok_0.1[j].0)),
{
    text_merge_is_tree_merge(old, new);
    lemma_merged_leaf_from_input(text_tree(old), text_tree(new), q);
    built_nodes_on_key_paths(extracted(old)->Ok_0.1, q);
    built_nodes_on_key_paths(extracted(new)->Ok_0.1, q);
}

/// Shapes are overridden: where one text has a leaf and the other a subtree
/// at a path, the merged node there is the new text's, whole.
pub proof fn text_shape_override(old: Seq<char>, new: Seq<char>, p: Seq<Seq<char>>)
    requires
        extracted(old) is Ok,
        extracted(new) is Ok,
        (leaf_at(text_tree(old), p) && branch_at(text_tree(new), p)) || (branch_at(text_tree(old), p) && leaf_at(text_tree(new), p)),
    ensures
        node_at(merge_tree(text_tree(old), text_tree(new)), p) == node_at(text_tree(new), p),
{
    text_merge_is_tree_merge(old, new);
    shape_override(text_tree(old), text_tree(new), p);
}

/// Union of keys: where no path is a leaf in one text's tree and a subtree in
/// the other's, the merged tree has leaves exactly where either has one.
pub proof fn text_leaf_union(old: Seq<char>, new: Seq<char>)
    requires
        extracted(old) is Ok,
        extracted(new) is Ok,
        forall|p: Seq<Seq<char>>| !(leaf_at(text_tree(old), p) && branch_at(text_tree(new), p))
            && !(branch_at(text_tree(old), p) && leaf_at(text_tree(new), p)),
    ensures
        forall|p: Seq<Seq<char>>| #[trigger] leaf_at(merge_tree(text_tree(old), text_tree(new)), p)
            <==> (leaf_at(text_tree(old), p) || leaf_at(text_tree(new), p)),
{
    text_merge_is_tree_merge(old, new);
    leaf_paths_union(text_tree(old), text_tree(new));
}

/// Merges two Nix configurations by updating or inserting the bindings of
/// `new_nix` into `old_nix`, preserving nested blocks and the old document's
/// header (else the new one's). An error in reading either text aborts the
/// merge.
pub fn merge_configs(old_nix: &str, new_nix: &str) -> (r: Result<String, MergeError>)
    requires
        parsable(old_nix),
        parsable(new_nix),
    ensures
        match merged_result(old_nix@, new_nix@) {
            Ok(t) => r matches Ok(s) && s@ == t,
            Err(e) => r matches Err(x) && x.view() == e,
        },
{
    let (old_header, old_map) = extract_kv_pairs(old_nix)?;
    let (new_header, new_map) = extract_kv_pairs(new_nix)?;
    let header = match old_header {
        Some(h) => Some(h),
        None => new_header,
    };
    let full = merge_trees(&old_map, &new_map);
    Ok(render_document(&header, &full))
}

} // verus!
