//! Minimal-diff reconstruction: replaces only the spans of assignments whose
//! text changed and inserts new assignments before the last closing brace.
use vstd::prelude::*;

verus! {

broadcast use vstd::std_specs::vec::group_vec_axioms, vstd::seq::group_seq_axioms, vstd::std_specs::vec::lemma_vec_obeys_eq_spec;

/// One leaf assignment of a document: its dotted key, the byte span
/// `start..end` it takes in the document, and its verbatim text.
pub struct Assignment {
    pub path: String,
    pub start: usize,
    pub end: usize,
    pub text: Vec<u8>,
}

/// The model of an `Assignment`.
pub struct AssignView {
    pub path: Seq<char>,
    pub start: usize,
    pub end: usize,
    pub text: Seq<u8>,
}

impl Assignment {
    pub open spec fn view(&self) -> AssignView {
        AssignView { path: self.path@, start: self.start, end: self.end, text: self.text@ }
    }
}

pub open spec fn assign_views(xs: Seq<Assignment>) -> Seq<AssignView> {
    xs.map_values(|a: Assignment| a.view())
}

/// The spans of `olds` lie inside a text of `len` bytes, in order and
/// without overlap.
pub open spec fn spans_ordered(len: nat, olds: Seq<AssignView>) -> bool {
    &&& forall|i: int| 0 <= i < olds.len() ==> #[trigger] olds[i].start <= olds[i].end <= len
    &&& forall|i: int| 0 < i < olds.len() ==> olds[i - 1].end <= #[trigger] olds[i].start
}

/// The first index of `xs` whose path is `k`, if any.
pub open spec fn find_path(xs: Seq<AssignView>, k: Seq<char>) -> Option<int>
    decreases xs.len(),
{
    if xs.len() == 0 {
        None
    } else {
        match find_path(xs.drop_last(), k) {
            Some(i) => Some(i),
            None => if xs.last().path == k { Some(xs.len() - 1) } else { None },
        }
    }
}

/// What the span of old assignment `a` becomes: the new text of the same
/// key where that differs, else the span as it stands in `t`.
pub open spec fn span_result(t: Seq<u8>, a: AssignView, news: Seq<AssignView>) -> Seq<u8> {
    match find_path(news, a.path) {
        Some(j) => if news[j].text != a.text { news[j].text } else { t.subrange(a.start as int, a.end as int) },
        None => t.subrange(a.start as int, a.end as int),
    }
}

/// Where the text after the `n`th old span begins.
pub open spec fn end_before(olds: Seq<AssignView>, n: int) -> int {
    if n <= 0 { 0 } else { olds[n - 1].end as int }
}

/// `t` up to the end of the first `n` old spans, each span replaced.
pub open spec fn spliced(t: Seq<u8>, olds: Seq<AssignView>, news: Seq<AssignView>, n: int) -> Seq<u8>
    decreases n,
{
    if n <= 0 {
        Seq::empty()
    } else {
        spliced(t, olds, news, n - 1) + t.subrange(end_before(olds, n - 1), olds[n - 1].start as int)
            + span_result(t, olds[n - 1], news)
    }
}

/// `t` with every changed span replaced.
pub open spec fn replaced(t: Seq<u8>, olds: Seq<AssignView>, news: Seq<AssignView>) -> Seq<u8> {
    spliced(t, olds, news, olds.len() as int) + t.subrange(end_before(olds, olds.len() as int), t.len() as int)
}

/// The first `n` new assignments whose key is not among the old ones, each
/// preceded by a newline.
pub open spec fn additions(olds: Seq<AssignView>, news: Seq<AssignView>, n: int) -> Seq<u8>
    decreases n,
{
    if n <= 0 {
        Seq::empty()
    } else {
        additions(olds, news, n - 1) + if find_path(olds, news[n - 1].path) is None {
            seq![10u8] + news[n - 1].text
        } else {
            Seq::empty()
        }
    }
}

/// The last index of the byte `}` in `t`, if any.
pub open spec fn last_brace(t: Seq<u8>) -> Option<int>
    decreases t.len(),
{
    if t.len() == 0 {
        None
    } else if t.last() == 125u8 {
        Some(t.len() - 1)
    } else {
        last_brace(t.drop_last())
    }
}

/// `r` with `adds` inserted before its last `}`, and whether there was no
/// `}`, so that non-empty `adds` were appended at the end instead.
pub open spec fn place(r: Seq<u8>, adds: Seq<u8>) -> (Seq<u8>, bool) {
    match last_brace(r) {
        Some(i) => (r.take(i) + adds + r.skip(i), false),
        None => (r + adds, adds.len() > 0),
    }
}

/// The patched text, and whether additions had no closing brace to stand
/// before and were appended at the end instead.
pub open spec fn patched(t: Seq<u8>, olds: Seq<AssignView>, news: Seq<AssignView>) -> (Seq<u8>, bool) {
    place(replaced(t, olds, news), additions(olds, news, news.len() as int))
}

/// Finds the first assignment of `xs` with path `k`.
pub(crate) fn find_assignment(xs: &Vec<Assignment>, k: &String) -> (r: Option<usize>)
    ensures
        r matches Some(i) ==> i < xs@.len() && find_path(assign_views(xs@), k@) == Some(i as int),
        r is None ==> find_path(assign_views(xs@), k@) is None,
{
    let mut j: usize = 0;
    while j < xs.len()
        invariant
            j <= xs@.len(),
            find_path(assign_views(xs@).take(j as int), k@) is None,
        decreases xs@.len() - j,
    {
        proof {
            assert(assign_views(xs@).take(j + 1).drop_last() =~= assign_views(xs@).take(j as int));
        }
        if xs[j].path == *k {
            proof {
                lemma_find_path_prefix(assign_views(xs@), j as int + 1, k@);
            }
            return Some(j);
        }
        j += 1;
    }
    proof {
        assert(assign_views(xs@).take(j as int) =~= assign_views(xs@));
    }
    None
}

/// A key first found in a prefix is found at the same place in the whole.
proof fn lemma_find_path_prefix(xs: Seq<AssignView>, n: int, k: Seq<char>)
    requires
        0 <= n <= xs.len(),
        find_path(xs.take(n), k) is Some,
    ensures
        find_path(xs, k) == find_path(xs.take(n), k),
    decreases xs.len(),
{
    if n < xs.len() {
        assert(xs.drop_last().take(n) =~= xs.take(n));
        lemma_find_path_prefix(xs.drop_last(), n, k);
    } else {
        assert(xs.take(n) =~= xs);
    }
}

/// Appends the bytes `b[from..to]` to `out`.
fn push_range(out: &mut Vec<u8>, b: &Vec<u8>, from: usize, to: usize)
    requires
        from <= to <= b@.len(),
    ensures
        final(out)@ == old(out)@ + b@.subrange(from as int, to as int),
{
    let mut i = from;
    while i < to
        invariant
            from <= i <= to <= b@.len(),
            out@ == old(out)@ + b@.subrange(from as int, i as int),
        decreases to - i,
    {
        out.push(b[i]);
        proof {
            assert(b@.subrange(from as int, i + 1) =~= b@.subrange(from as int, i as int).push(b@[i as int]));
        }
        i += 1;
    }
}

/// Replaces the changed spans of `old_text`, then inserts the assignments
/// that are new, each after a newline, before the last `}`; without a `}`
/// they are appended and the second result is `true`.
#[verifier::loop_isolation(false)]
pub fn patch(old_text: &Vec<u8>, old_assignments: &Vec<Assignment>, new_assignments: &Vec<Assignment>) -> (r: (Vec<u8>, bool))
    requires
        spans_ordered(old_text@.len(), assign_views(old_assignments@)),
    ensures
        (r.0@, r.1) == patched(old_text@, assign_views(old_assignments@), assign_views(new_assignments@)),
{
    let ghost t = old_text@;
    let ghost olds = assign_views(old_assignments@);
    let ghost news = assign_views(new_assignments@);
    let mut out: Vec<u8> = Vec::new();
    let mut i: usize = 0;
    let mut last_end: usize = 0;
    while i < old_assignments.len()
        invariant
            i <= olds.len(),
            last_end == end_before(olds, i as int),
            last_end <= t.len(),
            out@ == spliced(t, olds, news, i as int),
        decreases olds.len() - i,
    {
        let a = &old_assignments[i];
        proof {
            if i > 0 {
                assert(olds[i - 1].end <= olds[i as int].start);
            } else {
                assert(last_end == 0);
            }
            assert(olds[i as int].start <= olds[i as int].end <= t.len());
        }
        push_range(&mut out, old_text, last_end, a.start);
        let ghost before = out@;
        match find_assignment(new_assignments, &a.path) {
            Some(j) => {
                if !(new_assignments[j].text == a.text) {
                    push_range(&mut out, &new_assignments[j].text, 0, new_assignments[j].text.len());
                    proof {
                        assert(new_assignments@[j as int].text@.subrange(0, new_assignments@[j as int].text@.len() as int) =~= new_assignments@[j as int].text@);
                        assert(news[j as int].text != a.text@);
                        assert(out@ == before + span_result(t, olds[i as int], news));
                    }
                } else {
                    push_range(&mut out, old_text, a.start, a.end);
                    proof {
                        assert(news[j as int].text == a.text@);
                        assert(out@ == before + span_result(t, olds[i as int], news));
                    }
                }
            },
            None => {
                push_range(&mut out, old_text, a.start, a.end);
            },
        }
        proof {
            assert(out@ =~= spliced(t, olds, news, i + 1));
        }
        last_end = a.end;
        i += 1;
    }
    push_range(&mut out, old_text, last_end, old_text.len());
    let ghost r = out@;
    proof {
        assert(r == replaced(t, olds, news));
    }
    let mut adds: Vec<u8> = Vec::new();
    let mut j: usize = 0;
    while j < new_assignments.len()
        invariant
            j <= news.len(),
            adds@ == additions(olds, news, j as int),
        decreases news.len() - j,
    {
        let n = &new_assignments[j];
        if find_assignment(old_assignments, &n.path).is_none() {
            adds.push(10u8);
            push_range(&mut adds, &n.text, 0, n.text.len());
            proof {
                assert(n.text@.subrange(0, n.text@.len() as int) =~= n.text@);
                assert(adds@ =~= additions(olds, news, j as int) + (seq![10u8] + n.text@));
            }
        } else {
            proof {
                assert(adds@ =~= additions(olds, news, j as int) + Seq::<u8>::empty());
            }
        }
        j += 1;
    }
    let mut k: usize = out.len();
    proof {
        assert(r.take(r.len() as int) =~= r);
    }
    while k > 0
        invariant
            k <= r.len(),
            out@ == r,
            last_brace(r) == last_brace(r.take(k as int)),
        decreases k,
    {
        proof {
            assert(r.take(k as int).drop_last() =~= r.take(k - 1));
        }
        if out[k - 1] == 125u8 {
            let mut res: Vec<u8> = Vec::new();
            push_range(&mut res, &out, 0, k - 1);
            push_range(&mut res, &adds, 0, adds.len());
            push_range(&mut res, &out, k - 1, out.len());
            proof {
                assert(adds@.subrange(0, adds@.len() as int) =~= adds@);
                assert(r.subrange(0, k - 1) =~= r.take(k - 1));
                assert(r.subrange(k - 1, r.len() as int) =~= r.skip(k - 1));
            }
            return (res, false);
        }
        k -= 1;
    }
    proof {
        assert(r.take(0) =~= Seq::<u8>::empty());
    }
    let warn = adds.len() > 0;
    push_range(&mut out, &adds, 0, adds.len());
    proof {
        assert(adds@.subrange(0, adds@.len() as int) =~= adds@);
    }
    (out, warn)
}


/// Splicing when every span but the `x`th keeps its bytes.
#[verifier::rlimit(50)]
proof fn lemma_spliced_one(t: Seq<u8>, olds: Seq<AssignView>, news: Seq<AssignView>, x: int, n: int)
    requires
        spans_ordered(t.len(), olds),
        0 <= x < olds.len(),
        0 <= n <= olds.len(),
        forall|i: int| 0 <= i < olds.len() && i != x ==> span_result(t, #[trigger] olds[i], news) == t.subrange(olds[i].start as int, olds[i].end as int),
    ensures
        n <= x ==> spliced(t, olds, news, n) == t.take(end_before(olds, n)),
        n <= x ==> end_before(olds, n) <= olds[x].start,
        n > x ==> olds[x].end <= end_before(olds, n),
        n > x ==> spliced(t, olds, news, n) == t.take(olds[x].start as int) + span_result(t, olds[x], news)
            + t.subrange(olds[x].end as int, end_before(olds, n)),
    decreases n,
{
    if n == 0 {
        assert(t.take(0) =~= Seq::<u8>::empty());
        assert(olds[x].start <= olds[x].end);
    } else {
        lemma_spliced_one(t, olds, news, x, n - 1);
        let a = olds[n - 1];
        assert(a.start <= a.end <= t.len());
        if n - 1 > 0 {
            assert(olds[n - 2].end <= olds[n - 1].start);
        }
        if n <= x {
            assert(olds[n].start >= a.end) by {
                assert(olds[n - 1].end <= olds[n].start);
            }
            lemma_start_bound_from(olds, t.len(), n, x);
            assert(t.take(end_before(olds, n - 1)) + t.subrange(end_before(olds, n - 1), a.start as int)
                + t.subrange(a.start as int, a.end as int) =~= t.take(a.end as int));
        } else if n - 1 == x {
            assert(t.take(end_before(olds, n - 1)) + t.subrange(end_before(olds, n - 1), a.start as int) =~= t.take(a.start as int));
            assert(t.subrange(a.end as int, a.end as int) =~= Seq::<u8>::empty());
            assert(spliced(t, olds, news, n) =~= t.take(olds[x].start as int) + span_result(t, olds[x], news)
                + t.subrange(olds[x].end as int, end_before(olds, n)));
        } else {
            assert(t.subrange(olds[x].end as int, end_before(olds, n - 1)) + t.subrange(end_before(olds, n - 1), a.start as int)
                + t.subrange(a.start as int, a.end as int) =~= t.subrange(olds[x].end as int, a.end as int));
            assert(spliced(t, olds, news, n) =~= t.take(olds[x].start as int) + span_result(t, olds[x], news)
                + t.subrange(olds[x].end as int, end_before(olds, n)));
        }
    }
}

proof fn lemma_find_path(xs: Seq<AssignView>, k: Seq<char>)
    ensures
        find_path(xs, k) matches Some(i) ==> 0 <= i < xs.len() && xs[i].path == k,
    decreases xs.len(),
{
    if xs.len() > 0 {
        lemma_find_path(xs.drop_last(), k);
    }
}

proof fn lemma_last_brace(t: Seq<u8>)
    ensures
        last_brace(t) matches Some(i) ==> 0 <= i < t.len(),
    decreases t.len(),
{
    if t.len() > 0 {
        lemma_last_brace(t.drop_last());
    }
}

/// A span's end is no later than the start of any later span.
proof fn lemma_start_bound_from(olds: Seq<AssignView>, len: nat, n: int, x: int)
    requires
        spans_ordered(len, olds),
        0 <= n <= x < olds.len(),
        n > 0,
    ensures
        olds[n - 1].end <= olds[x].start,
    decreases x - n,
{
    if n < x {
        assert(olds[n].start <= olds[n].end);
        assert(olds[n - 1].end <= olds[n].start);
        lemma_start_bound_from(olds, len, n + 1, x);
    } else {
        assert(olds[n - 1].end <= olds[n].start);
    }
}

/// Patching is minimal: where every old assignment but the one at `x` either
/// has no counterpart among the new ones or has the same text there, the
/// patched text is the old text with only that assignment's span replaced,
/// and with the additions placed; without additions, the old text with only
/// that span replaced.
pub proof fn patch_changes_one_span(t: Seq<u8>, olds: Seq<AssignView>, news: Seq<AssignView>, x: int)
    requires
        spans_ordered(t.len(), olds),
        0 <= x < olds.len(),
        forall|i: int| 0 <= i < olds.len() && i != x ==>
            (find_path(news, (#[trigger] olds[i]).path) matches Some(j) ==> news[j].text == olds[i].text),
    ensures
        patched(t, olds, news) == place(
            t.take(olds[x].start as int) + span_result(t, olds[x], news) + t.skip(olds[x].end as int),
            additions(olds, news, news.len() as int),
        ),
        additions(olds, news, news.len() as int).len() == 0 ==> patched(t, olds, news).0
            == t.take(olds[x].start as int) + span_result(t, olds[x], news) + t.skip(olds[x].end as int),
{
    assert forall|i: int| 0 <= i < olds.len() && i != x implies span_result(t, #[trigger] olds[i], news)
        == t.subrange(olds[i].start as int, olds[i].end as int) by {
        lemma_find_path(news, olds[i].path);
    }
    lemma_spliced_one(t, olds, news, x, olds.len() as int);
    let e = end_before(olds, olds.len() as int);
    assert(e <= t.len());
    assert(t.subrange(olds[x].end as int, e) + t.subrange(e, t.len() as int) =~= t.skip(olds[x].end as int));
    let r = t.take(olds[x].start as int) + span_result(t, olds[x], news) + t.skip(olds[x].end as int);
    assert(replaced(t, olds, news) =~= r);
    let adds = additions(olds, news, news.len() as int);
    lemma_last_brace(r);
    if adds.len() == 0 {
        match last_brace(r) {
            Some(i) => {
                assert(r.take(i) + adds + r.skip(i) =~= r);
            },
            None => {
                assert(r + adds =~= r);
            },
        }
    }
}

} // verus!
