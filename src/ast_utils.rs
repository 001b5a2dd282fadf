//! Reads a Nix document: checks rnix's parse, unwraps the parameter
//! headers, and flattens the body's attribute set.
use vstd::prelude::*;
use vstd::string::StringSliceAdditionalSpecFns;
use crate::document::{flat_view, keys_unique};
use crate::patch::{place, AssignView, Assignment, additions, assign_views, find_path, patch, patch_changes_one_span, patched, span_result, spans_ordered};
use crate::syntax::{lemma_set_flat_unique, parsable, assigns_of_set, body_exec, body_of, flat_of_set, opt_view, set_assigns, set_flat, syntax_errors, syntax_errors_of, syntax_events, syntax_events_of};
use crate::{ErrorView, MergeError};

verus! {

broadcast use vstd::std_specs::vec::group_vec_axioms, vstd::seq::group_seq_axioms;

/// The header of a document whose lambda has the text `full` and whose
/// attribute-set body has the text `body`: what precedes the body, or
/// nothing when the body is not at the end of the lambda.
pub open spec fn header_text(full: Seq<char>, body: Seq<char>) -> Seq<char> {
    if body.len() <= full.len() && full.subrange(full.len() - body.len(), full.len() as int) == body {
        full.take(full.len() - body.len())
    } else {
        Seq::empty()
    }
}

/// Cuts `body` off the end of `full`.
pub fn strip_body(full: &String, body: &String) -> (r: String)
    ensures
        r@ == header_text(full@, body@),
{
    let fs = full.as_str();
    let bs = body.as_str();
    let n = fs.unicode_len();
    let m = bs.unicode_len();
    if m > n {
        return String::new();
    }
    let start = n - m;
    let mut i: usize = 0;
    while i < m
        invariant
            n == full@.len(),
            m == body@.len(),
            fs@ == full@,
            bs@ == body@,
            start == n - m,
            i <= m,
            forall|j: int| 0 <= j < i ==> full@[start + j] == body@[j],
        decreases m - i,
    {
        if fs.get_char(start + i) != bs.get_char(i) {
            proof {
                assert(full@.subrange(start as int, n as int)[i as int] != body@[i as int]);
            }
            return String::new();
        }
        i += 1;
    }
    proof {
        assert(full@.subrange(start as int, n as int) =~= body@);
    }
    fs.substring_char(0, start).to_owned()
}

/// What is read from a text: an error where rnix reports syntax errors or
/// the document is not an attribute set (nor lambdas wrapping one), else the
/// header and the flat map of the body.
pub open spec fn extracted(code: Seq<char>) -> Result<(Option<Seq<char>>, Seq<(Seq<char>, Seq<char>)>), ErrorView> {
    if syntax_errors_of(code).len() > 0 {
        Err(ErrorView::Parse(syntax_errors_of(code)))
    } else {
        let ev = syntax_events_of(code);
        match body_of(ev) {
            Some(b) => match set_flat(Seq::empty(), Seq::empty(), ev, b.1, ev.len()) {
                Some(m) => Ok((b.0, m)),
                None => Err(ErrorView::Shape),
            },
            None => Err(ErrorView::Shape),
        }
    }
}

/// Extracts a document's header, if any, and its flat map from dotted key to
/// expression text.
pub fn extract_kv_pairs(nix_code: &str) -> (r: Result<(Option<String>, Vec<(String, String)>), MergeError>)
    requires
        parsable(nix_code),
    ensures
        match extracted(nix_code@) {
            Ok(x) => r matches Ok(y) && opt_view(y.0) == x.0 && flat_view(y.1@) == x.1,
            Err(e) => r matches Err(y) && y.view() == e,
        },
        r matches Ok(y) ==> keys_unique(flat_view(y.1@)),
{
    let errors = syntax_errors(nix_code);
    if errors.len() > 0 {
        return Err(MergeError::Parse(errors));
    }
    let ev = syntax_events(nix_code);
    let r = match body_exec(&ev) {
        Some((header, s)) => match flat_of_set(&ev, s) {
            Some(m) => Ok((header, m)),
            None => Err(MergeError::Shape),
        },
        None => Err(MergeError::Shape),
    };
    proof {
        if r is Ok {
            let ev_v = syntax_events_of(nix_code@);
            let b = body_of(ev_v)->Some_0;
            assert(keys_unique(Seq::<(Seq<char>, Seq<char>)>::empty()));
            lemma_set_flat_unique(Seq::empty(), Seq::empty(), ev_v, b.1, ev_v.len());
        }
    }
    r
}

/// Whether the spans of `xs` lie inside `len` bytes, in order.
pub fn check_spans(len: usize, xs: &Vec<Assignment>) -> (r: bool)
    ensures
        r == spans_ordered(len as nat, assign_views(xs@)),
{
    let mut i: usize = 0;
    while i < xs.len()
        invariant
            i <= xs@.len(),
            forall|j: int| 0 <= j < i ==> #[trigger] xs@[j].start <= xs@[j].end <= len,
            forall|j: int| 0 < j < i ==> xs@[j - 1].end <= #[trigger] xs@[j].start,
        decreases xs@.len() - i,
    {
        proof {
            assert(assign_views(xs@)[i as int] == xs@[i as int].view());
            if i > 0 {
                assert(assign_views(xs@)[i - 1] == xs@[i - 1].view());
            }
        }
        if !(xs[i].start <= xs[i].end && xs[i].end <= len) {
            proof {
                let v = assign_views(xs@);
                assert(0 <= i < v.len());
                assert(!(v[i as int].start <= v[i as int].end <= len as nat));
                if spans_ordered(len as nat, v) {
                    let ii = i as int;
                    assert(v[ii].start <= v[ii].end <= len as nat);
                }
            }
            return false;
        }
        if i > 0 && xs[i - 1].end > xs[i].start {
            proof {
                let v = assign_views(xs@);
                assert(0 < i < v.len());
                assert(!(v[i - 1].end <= v[i as int].start));
                assert(!spans_ordered(len as nat, v));
            }
            return false;
        }
        i += 1;
    }
    proof {
        let v = assign_views(xs@);
        assert forall|j: int| 0 <= j < v.len() implies #[trigger] v[j].start <= v[j].end <= len by {
            assert(v[j] == xs@[j].view());
        }
        assert forall|j: int| 0 < j < v.len() implies v[j - 1].end <= #[trigger] v[j].start by {
            assert(v[j] == xs@[j].view());
            assert(v[j - 1] == xs@[j - 1].view());
        }
    }
    true
}

/// The text that `String::from_utf8_lossy` makes of some bytes.
pub uninterp spec fn lossy_text(b: Seq<u8>) -> Seq<char>;

/// Relies on String::from_utf8_lossy: the text of the bytes, each invalid
/// sequence written as U+FFFD; the text depends on the bytes alone.
#[verifier::external_body]
fn text_of_bytes(b: &Vec<u8>) -> (r: String)
    ensures
        r@ == lossy_text(b@),
{
    String::from_utf8_lossy(b).into_owned()
}

/// The leaf assignments read from a text, under the same errors as
/// `extracted`.
pub open spec fn assignments_read(code: Seq<char>) -> Result<Seq<AssignView>, ErrorView> {
    if syntax_errors_of(code).len() > 0 {
        Err(ErrorView::Parse(syntax_errors_of(code)))
    } else {
        let ev = syntax_events_of(code);
        match body_of(ev) {
            Some(b) => match set_assigns(Seq::empty(), Seq::empty(), ev, b.1, ev.len()) {
                Some(m) => Ok(m),
                None => Err(ErrorView::Shape),
            },
            None => Err(ErrorView::Shape),
        }
    }
}

/// The leaf assignments of a document, in document order, each key once
/// (its last assignment).
pub fn document_assignments(code: &str) -> (r: Result<Vec<Assignment>, MergeError>)
    requires
        parsable(code),
    ensures
        match assignments_read(code@) {
            Ok(x) => r matches Ok(y) && assign_views(y@) == x,
            Err(e) => r matches Err(y) && y.view() == e,
        },
{
    let errors = syntax_errors(code);
    if errors.len() > 0 {
        return Err(MergeError::Parse(errors));
    }
    let ev = syntax_events(code);
    match body_exec(&ev) {
        Some((_, s)) => match assigns_of_set(&ev, s) {
            Some(m) => Ok(m),
            None => Err(MergeError::Shape),
        },
        None => Err(MergeError::Shape),
    }
}

/// The result of patching: the first error in reading the texts, a shape
/// error where the old spans do not lie in order in the old text, else the
/// patched text and the warning flag.
pub open spec fn patch_result(old: &str, new: &str) -> Result<(Seq<char>, bool), ErrorView> {
    match assignments_read(old@) {
        Err(e) => Err(e),
        Ok(o) => match assignments_read(new@) {
            Err(e) => Err(e),
            Ok(n) => if spans_ordered(old.spec_bytes().len(), o) {
                Ok((lossy_text(patched(old.spec_bytes(), o, n).0), patched(old.spec_bytes(), o, n).1))
            } else {
                Err(ErrorView::Shape)
            },
        },
    }
}

/// Merges by patching the old text: the spans of old assignments whose text
/// changed in the new document are replaced, and new assignments are
/// inserted before the last `}`. The second result is `true` when there was
/// no `}` and the additions were appended at the end.
pub fn patch_configs(old_nix: &str, new_nix: &str) -> (r: Result<(String, bool), MergeError>)
    requires
        parsable(old_nix),
        parsable(new_nix),
    ensures
        match patch_result(old_nix, new_nix) {
            Ok(x) => r matches Ok(y) && y.0@ == x.0 && y.1 == x.1,
            Err(e) => r matches Err(y) && y.view() == e,
        },
{
    let olds = document_assignments(old_nix)?;
    let news = document_assignments(new_nix)?;
    let bytes = old_nix.as_bytes_vec();
    if !check_spans(bytes.len(), &olds) {
        return Err(MergeError::Shape);
    }
    let (out, warn) = patch(&bytes, &olds, &news);
    Ok((text_of_bytes(&out), warn))
}

/// Patching is minimal on texts: where both texts read, the old spans lie in
/// order, and every old assignment but the one at `x` either has no
/// counterpart in the new text or the same text there, the result is the old
/// text with only that assignment's span replaced, and the new keys' texts
/// placed before its last `}` (appended, with the warning, if it has none).
pub proof fn text_patch_changes_one_span(old: &str, new: &str, x: int)
    requires
        assignments_read(old@) is Ok,
        assignments_read(new@) is Ok,
        spans_ordered(old.spec_bytes().len(), assignments_read(old@)->Ok_0),
        0 <= x < assignments_read(old@)->Ok_0.len(),
        forall|i: int| 0 <= i < assignments_read(old@)->Ok_0.len() && i != x ==>
            (find_path(assignments_read(new@)->Ok_0, (#[trigger] assignments_read(old@)->Ok_0[i]).path) matches Some(j)
                ==> assignments_read(new@)->Ok_0[j].text == assignments_read(old@)->Ok_0[i].text),
    ensures
        patch_result(old, new) == Ok::<(Seq<char>, bool), ErrorView>((
            lossy_text(place(one_span_replaced(old, new, x), additions(assignments_read(old@)->Ok_0, assignments_read(new@)->Ok_0, assignments_read(new@)->Ok_0.len() as int)).0),
            place(one_span_replaced(old, new, x), additions(assignments_read(old@)->Ok_0, assignments_read(new@)->Ok_0, assignments_read(new@)->Ok_0.len() as int)).1,
        )),
{
    let o = assignments_read(old@)->Ok_0;
    let n = assignments_read(new@)->Ok_0;
    patch_changes_one_span(old.spec_bytes(), o, n, x);
}

/// The old text's bytes with only the span of its `x`th assignment replaced
/// by what patching puts there for the new text.
pub open spec fn one_span_replaced(old: &str, new: &str, x: int) -> Seq<u8> {
    let t = old.spec_bytes();
    let a = assignments_read(old@)->Ok_0[x];
    t.take(a.start as int) + span_result(t, a, assignments_read(new@)->Ok_0) + t.skip(a.end as int)
}

} // verus!
