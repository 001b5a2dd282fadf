//! Renders a merged tree back into document text.
use vstd::prelude::*;
use crate::merger::{Node, Tree, children_view};

verus! {

broadcast use vstd::std_specs::vec::group_vec_axioms, vstd::seq::group_seq_axioms;

pub open spec fn eq_sep() -> Seq<char> {
    seq![' ', '=', ' ']
}

pub open spec fn line_end() -> Seq<char> {
    seq![';', '\n']
}

pub open spec fn indent_unit() -> Seq<char> {
    seq![' ', ' ']
}

/// The text of the first `n` children of `cs`, each line prefixed by `pad`.
/// A leaf is `key = expr;`; a subtree whose one child is a leaf is written
/// on one line as `key.child = expr;`; any other subtree is a block, followed
/// by a blank line unless it is the last child.
pub open spec fn render_lines(cs: Seq<(Seq<char>, Tree)>, n: int, pad: Seq<char>) -> Seq<char>
    decreases cs, n,
{
    if n <= 0 || n > cs.len() {
        Seq::empty()
    } else {
        let before = render_lines(cs, n - 1, pad);
        let k = cs[n - 1].0;
        match cs[n - 1].1 {
            Tree::Leaf(e) => before + pad + k + eq_sep() + e + line_end(),
            Tree::Branch(sub) => if sub.len() == 1 && sub[0].1 is Leaf {
                before + pad + k + seq!['.'] + sub[0].0 + eq_sep() + sub[0].1->Leaf_0 + line_end()
            } else {
                before + pad + k + seq![' ', '=', ' ', '{', '\n'] + render_lines(sub, sub.len() as int, pad + indent_unit())
                    + pad + seq!['}'] + line_end() + (if n < cs.len() { seq!['\n'] } else { Seq::empty() })
            },
        }
    }
}

/// The text of a whole merged document: the header, if any, then the
/// top-level block.
pub open spec fn document_text(header: Option<Seq<char>>, cs: Seq<(Seq<char>, Tree)>) -> Seq<char> {
    let h = match header {
        Some(h) => h,
        None => Seq::empty(),
    };
    h + seq!['{', '\n'] + render_lines(cs, cs.len() as int, indent_unit()) + seq!['}', '\n']
}

/// Renders the children of `cs`, each line prefixed by `pad`.
#[verifier::loop_isolation(false)]
pub fn render_children(cs: &Vec<(String, Node)>, pad: &String) -> (r: String)
    ensures
        r@ == render_lines(children_view(cs@), cs@.len() as int, pad@),
    decreases cs,
{
    let ghost v = children_view(cs@);
    proof {
        crate::merger::lemma_children_view(cs@);
        reveal_strlit(" = ");
        reveal_strlit(";\n");
        reveal_strlit(".");
        reveal_strlit(" = {\n");
        reveal_strlit("}");
        reveal_strlit("\n");
        reveal_strlit("  ");
        assert(" = "@ =~= eq_sep());
        assert(";\n"@ =~= line_end());
        assert("  "@ =~= indent_unit());
        assert("."@ =~= seq!['.']);
        assert(" = {\n"@ =~= seq![' ', '=', ' ', '{', '\n']);
        assert("}"@ =~= seq!['}']);
        assert("\n"@ =~= seq!['\n']);
    }
    let mut out = String::new();
    let mut i: usize = 0;
    while i < cs.len()
        invariant
            i <= cs@.len(),
            out@ == render_lines(v, i as int, pad@),
        decreases cs@.len() - i,
    {
        let k = &cs[i].0;
        proof {
            assert(v[i as int] == (k@, cs@[i as int].1@));
        }
        match &cs[i].1 {
            Node::Leaf(e) => {
                out.append(pad.as_str());
                out.append(k.as_str());
                out.append(" = ");
                out.append(e.as_str());
                out.append(";\n");
            },
            Node::Tree(sub) => {
                proof {
                    crate::merger::lemma_children_view(sub@);
                }
                let mut one_line = false;
                if sub.len() == 1 {
                    match &sub[0].1 {
                        Node::Leaf(e) => {
                            out.append(pad.as_str());
                            out.append(k.as_str());
                            out.append(".");
                            out.append(sub[0].0.as_str());
                            out.append(" = ");
                            out.append(e.as_str());
                            out.append(";\n");
                            one_line = true;
                        },
                        Node::Tree(_) => {},
                    }
                }
                if !one_line {
                    let mut inner = pad.clone();
                    inner.append("  ");
                    proof {
                        assert(decreases_to!(cs => cs@));
                        assert(decreases_to!(cs@ => cs@[i as int]));
                        assert(decreases_to!(cs@[i as int] => cs@[i as int].1));
                        assert(decreases_to!(cs@[i as int].1 => *sub));
                    }
                    let body = render_children(sub, &inner);
                    out.append(pad.as_str());
                    out.append(k.as_str());
                    out.append(" = {\n");
                    out.append(body.as_str());
                    out.append(pad.as_str());
                    out.append("}");
                    out.append(";\n");
                    if i + 1 < cs.len() {
                        out.append("\n");
                    }
                }
            },
        }
        proof {
            assert(out@ =~= render_lines(v, i + 1, pad@));
        }
        i += 1;
    }
    out
}


/// Renders a merged document: the header, if any, then the top-level block.
pub fn render_document(header: &Option<String>, cs: &Vec<(String, Node)>) -> (r: String)
    ensures
        r@ == document_text(
            match header {
                Some(h) => Some(h@),
                None => None,
            },
            children_view(cs@),
        ),
{
    proof {
        reveal_strlit("  ");
        reveal_strlit("{\n");
        reveal_strlit("}\n");
        assert("  "@ =~= indent_unit());
        assert("{\n"@ =~= seq!['{', '\n']);
        assert("}\n"@ =~= seq!['}', '\n']);
    }
    let mut out = match header {
        Some(h) => h.clone(),
        None => String::new(),
    };
    out.append("{\n");
    let pad = String::from_str("  ");
    let body = render_children(cs, &pad);
    out.append(body.as_str());
    out.append("}\n");
    proof {
        let h = match header {
            Some(h) => h@,
            None => Seq::<char>::empty(),
        };
        assert(out@ =~= h + seq!['{', '\n'] + render_lines(children_view(cs@), cs@.len() as int, indent_unit()) + seq!['}', '\n']);
        crate::merger::lemma_children_view(cs@);
    }
    out
}

} // verus!
