//! rnix's syntax tree as plain values, and reading a document from it.
use vstd::prelude::*;
use vstd::string::StringSliceAdditionalSpecFns;
use rnix::{Root, SyntaxKind, WalkEvent};
use crate::document::{flat_view, join_key, keys_unique, lemma_put_unique, make_key, put, put_entry};
use crate::ast_utils::strip_body;
use crate::patch::{AssignView, Assignment, assign_views, find_assignment, find_path};
use crate::merger::seg_views;
use crate::path_normalizer::{dotted, normalize_path};

verus! {

broadcast use vstd::std_specs::vec::group_vec_axioms, vstd::seq::group_seq_axioms;

/// The kinds of syntax node that reading tells apart.
#[derive(PartialEq, Eq, Structural, Clone, Copy)]
pub enum NodeKind {
    Lambda,
    AttrSet,
    AttrpathValue,
    Attrpath,
    /// A lambda's parameter: a pattern or a plain identifier.
    Param,
    Other,
}

/// One step of a preorder walk of the syntax tree: entering a node, with its
/// kind, its source text (also as UTF-8 bytes) and its byte span, or leaving the last one entered.
pub enum SyntaxEvent {
    Enter(NodeKind, String, Vec<u8>, usize, usize),
    Leave,
}

/// The model of a `SyntaxEvent`.
pub enum EventView {
    Enter(NodeKind, Seq<char>, Seq<u8>, usize, usize),
    Leave,
}

impl SyntaxEvent {
    pub open spec fn view(&self) -> EventView {
        match self {
            SyntaxEvent::Enter(k, t, b, s, e) => EventView::Enter(*k, t@, b@, *s, *e),
            SyntaxEvent::Leave => EventView::Leave,
        }
    }
}

pub open spec fn events_view(ev: Seq<SyntaxEvent>) -> Seq<EventView> {
    ev.map_values(|e: SyntaxEvent| e.view())
}

/// The syntax errors that rnix reports for a text.
pub uninterp spec fn syntax_errors_of(code: Seq<char>) -> Seq<Seq<char>>;

/// The preorder walk of the syntax tree that rnix builds for a text.
pub uninterp spec fn syntax_events_of(code: Seq<char>) -> Seq<EventView>;

/// rnix measures a text in 32-bit offsets: a longer one makes its parse panic.
pub open spec fn parsable(code: &str) -> bool {
    code.spec_bytes().len() <= u32::MAX
}

/// Relies on rnix::Root::parse and its `errors`: the syntax errors of the
/// text, as text; the parse depends on the text alone.
#[verifier::external_body]
pub(crate) fn syntax_errors(code: &str) -> (r: Vec<String>)
    requires
        parsable(code),
    ensures
        seg_views(r@) == syntax_errors_of(code@),
{
    Root::parse(code).errors().iter().map(|e| e.to_string()).collect()
}

/// Relies on rnix::Root::parse and the `preorder` walk of its syntax tree:
/// each node entered with its kind, text and span, and each node left.
#[verifier::external_body]
pub(crate) fn syntax_events(code: &str) -> (r: Vec<SyntaxEvent>)
    requires
        parsable(code),
    ensures
        events_view(r@) == syntax_events_of(code@),
{
    Root::parse(code).syntax().preorder().map(|ev| match ev {
        WalkEvent::Enter(n) => SyntaxEvent::Enter(
            match n.kind() {
                SyntaxKind::NODE_LAMBDA => NodeKind::Lambda,
                SyntaxKind::NODE_ATTR_SET => NodeKind::AttrSet,
                SyntaxKind::NODE_ATTRPATH_VALUE => NodeKind::AttrpathValue,
                SyntaxKind::NODE_ATTRPATH => NodeKind::Attrpath,
                SyntaxKind::NODE_PATTERN | SyntaxKind::NODE_IDENT_PARAM => NodeKind::Param,
                _ => NodeKind::Other,
            },
            n.to_string(), n.to_string().into_bytes(), n.text_range().start().into(), n.text_range().end().into()),
        WalkEvent::Leave(_) => SyntaxEvent::Leave,
    }).collect()
}

pub open spec fn is_enter(ev: Seq<EventView>, i: int) -> bool {
    0 <= i < ev.len() && ev[i] is Enter
}

pub open spec fn kind_at(ev: Seq<EventView>, i: int) -> NodeKind {
    ev[i]->Enter_0
}

pub open spec fn text_at(ev: Seq<EventView>, i: int) -> Seq<char> {
    ev[i]->Enter_1
}

/// The node entered at `i` as a leaf assignment with key `key`.
pub open spec fn assign_at(ev: Seq<EventView>, i: int, key: Seq<char>) -> AssignView {
    AssignView { path: key, start: ev[i]->Enter_3, end: ev[i]->Enter_4, text: ev[i]->Enter_2 }
}

/// From index `j`, inside a node, the entries of that node's children up to
/// its leave event, and the index just after it; `fuel` bounds the steps.
pub open spec fn children_from(ev: Seq<EventView>, j: int, fuel: nat) -> Option<(Seq<int>, int)>
    decreases fuel,
{
    if fuel == 0 || j < 0 || j >= ev.len() {
        None
    } else if ev[j] is Leave {
        Some((Seq::empty(), j + 1))
    } else {
        match children_from(ev, j + 1, (fuel - 1) as nat) {
            Some(inner) => match children_from(ev, inner.1, (fuel - 1) as nat) {
                Some(rest) => Some((seq![j] + rest.0, rest.1)),
                None => None,
            },
            None => None,
        }
    }
}

/// The entries of the children of the node entered at `i`.
pub open spec fn children(ev: Seq<EventView>, i: int) -> Option<Seq<int>> {
    if is_enter(ev, i) {
        match children_from(ev, i + 1, ev.len()) {
            Some(r) => Some(r.0),
            None => None,
        }
    } else {
        None
    }
}

/// The first of `cs` that is an expression: not an attribute path and not a
/// lambda's parameter.
pub open spec fn first_value(ev: Seq<EventView>, cs: Seq<int>) -> Option<int>
    decreases cs.len(),
{
    if cs.len() == 0 {
        None
    } else if kind_at(ev, cs[0]) != NodeKind::Attrpath && kind_at(ev, cs[0]) != NodeKind::Param {
        Some(cs[0])
    } else {
        first_value(ev, cs.drop_first())
    }
}

/// The first of `cs` that is an attribute path.
pub open spec fn first_attrpath(ev: Seq<EventView>, cs: Seq<int>) -> Option<int>
    decreases cs.len(),
{
    if cs.len() == 0 {
        None
    } else if kind_at(ev, cs[0]) == NodeKind::Attrpath {
        Some(cs[0])
    } else {
        first_attrpath(ev, cs.drop_first())
    }
}

/// The texts of the nodes entered at `cs`.
pub open spec fn texts(ev: Seq<EventView>, cs: Seq<int>) -> Seq<Seq<char>> {
    cs.map_values(|c: int| text_at(ev, c))
}

/// The attribute set that the expression entered at `e` is, or that its
/// lambdas wrap.
pub open spec fn unwrap_set(ev: Seq<EventView>, e: int, fuel: nat) -> Option<int>
    decreases fuel,
{
    if fuel == 0 || !is_enter(ev, e) {
        None
    } else if kind_at(ev, e) == NodeKind::AttrSet {
        Some(e)
    } else if kind_at(ev, e) == NodeKind::Lambda {
        match children(ev, e) {
            Some(cs) => match first_value(ev, cs) {
                Some(b) => unwrap_set(ev, b, (fuel - 1) as nat),
                None => None,
            },
            None => None,
        }
    } else {
        None
    }
}

/// `m` after recording every leaf of the set entered at `s`, below `prefix`.
pub open spec fn set_flat(m: Seq<(Seq<char>, Seq<char>)>, prefix: Seq<char>, ev: Seq<EventView>, s: int, fuel: nat) -> Option<Seq<(Seq<char>, Seq<char>)>>
    decreases fuel, 0nat,
{
    if fuel == 0 {
        None
    } else {
        match children(ev, s) {
            Some(cs) => entries_flat(m, prefix, ev, cs, (fuel - 1) as nat),
            None => None,
        }
    }
}

/// `m` after recording the leaves of the entries `cs` of a set, in order.
pub open spec fn entries_flat(m: Seq<(Seq<char>, Seq<char>)>, prefix: Seq<char>, ev: Seq<EventView>, cs: Seq<int>, fuel: nat) -> Option<Seq<(Seq<char>, Seq<char>)>>
    decreases fuel, cs.len() + 1,
{
    if cs.len() == 0 {
        Some(m)
    } else {
        match entries_flat(m, prefix, ev, cs.drop_last(), fuel) {
            Some(acc) => entry_flat(acc, prefix, ev, cs.last(), fuel),
            None => None,
        }
    }
}

/// The key of the `path = value;` entry entered at `a`, below `prefix`, and
/// its value: the entry's attribute path, its attributes' texts joined by `.`.
pub open spec fn entry_parts(prefix: Seq<char>, ev: Seq<EventView>, a: int) -> Option<(Seq<char>, int)> {
    match children(ev, a) {
        Some(cs) => match (first_attrpath(ev, cs), first_value(ev, cs)) {
            (Some(p), Some(v)) => match children(ev, p) {
                Some(segs) => Some((join_key(prefix, dotted(texts(ev, segs))), v)),
                None => None,
            },
            _ => None,
        },
        None => None,
    }
}

/// `acc` after recording the entry entered at `a`: a nested set is recorded
/// leaf by leaf, any other value as its text; other entries are skipped.
pub open spec fn entry_flat(acc: Seq<(Seq<char>, Seq<char>)>, prefix: Seq<char>, ev: Seq<EventView>, a: int, fuel: nat) -> Option<Seq<(Seq<char>, Seq<char>)>>
    decreases fuel, 0nat,
{
    if kind_at(ev, a) != NodeKind::AttrpathValue {
        Some(acc)
    } else {
        match entry_parts(prefix, ev, a) {
            Some(kv) => if kind_at(ev, kv.1) == NodeKind::AttrSet {
                if fuel == 0 { None } else { set_flat(acc, kv.0, ev, kv.1, (fuel - 1) as nat) }
            } else {
                Some(put(acc, kv.0, text_at(ev, kv.1)))
            },
            None => Some(acc),
        }
    }
}

/// `acc` with the assignment `a`, after removing an earlier one of the same
/// key: the last assignment of a key wins, and spans stay in document order.
pub open spec fn put_assign(acc: Seq<AssignView>, a: AssignView) -> Seq<AssignView> {
    match find_path(acc, a.path) {
        Some(i) => acc.remove(i).push(a),
        None => acc.push(a),
    }
}

/// `m` after recording every leaf assignment of the set entered at `s`,
/// below `prefix`.
pub open spec fn set_assigns(m: Seq<AssignView>, prefix: Seq<char>, ev: Seq<EventView>, s: int, fuel: nat) -> Option<Seq<AssignView>>
    decreases fuel, 0nat,
{
    if fuel == 0 {
        None
    } else {
        match children(ev, s) {
            Some(cs) => entries_assigns(m, prefix, ev, cs, (fuel - 1) as nat),
            None => None,
        }
    }
}

/// `m` after recording the assignments of the entries `cs` of a set.
pub open spec fn entries_assigns(m: Seq<AssignView>, prefix: Seq<char>, ev: Seq<EventView>, cs: Seq<int>, fuel: nat) -> Option<Seq<AssignView>>
    decreases fuel, cs.len() + 1,
{
    if cs.len() == 0 {
        Some(m)
    } else {
        match entries_assigns(m, prefix, ev, cs.drop_last(), fuel) {
            Some(acc) => entry_assigns(acc, prefix, ev, cs.last(), fuel),
            None => None,
        }
    }
}

/// `acc` after recording the entry entered at `a`: a nested set is recorded
/// leaf by leaf, any other entry as one assignment; others are skipped.
pub open spec fn entry_assigns(acc: Seq<AssignView>, prefix: Seq<char>, ev: Seq<EventView>, a: int, fuel: nat) -> Option<Seq<AssignView>>
    decreases fuel, 0nat,
{
    if kind_at(ev, a) != NodeKind::AttrpathValue {
        Some(acc)
    } else {
        match entry_parts(prefix, ev, a) {
            Some(kv) => if kind_at(ev, kv.1) == NodeKind::AttrSet {
                if fuel == 0 { None } else { set_assigns(acc, kv.0, ev, kv.1, (fuel - 1) as nat) }
            } else {
                Some(put_assign(acc, assign_at(ev, a, kv.0)))
            },
            None => Some(acc),
        }
    }
}

/// Recording leaves keeps the keys of a flat map distinct.
pub proof fn lemma_set_flat_unique(m: Seq<(Seq<char>, Seq<char>)>, prefix: Seq<char>, ev: Seq<EventView>, s: int, fuel: nat)
    requires
        keys_unique(m),
    ensures
        set_flat(m, prefix, ev, s, fuel) matches Some(x) ==> keys_unique(x),
    decreases fuel, 0nat,
{
    if fuel > 0 {
        if let Some(cs) = children(ev, s) {
            lemma_entries_flat_unique(m, prefix, ev, cs, (fuel - 1) as nat);
        }
    }
}

proof fn lemma_entries_flat_unique(m: Seq<(Seq<char>, Seq<char>)>, prefix: Seq<char>, ev: Seq<EventView>, cs: Seq<int>, fuel: nat)
    requires
        keys_unique(m),
    ensures
        entries_flat(m, prefix, ev, cs, fuel) matches Some(x) ==> keys_unique(x),
    decreases fuel, cs.len() + 1,
{
    if cs.len() > 0 {
        lemma_entries_flat_unique(m, prefix, ev, cs.drop_last(), fuel);
        if let Some(acc) = entries_flat(m, prefix, ev, cs.drop_last(), fuel) {
            lemma_entry_flat_unique(acc, prefix, ev, cs.last(), fuel);
        }
    }
}

proof fn lemma_entry_flat_unique(acc: Seq<(Seq<char>, Seq<char>)>, prefix: Seq<char>, ev: Seq<EventView>, a: int, fuel: nat)
    requires
        keys_unique(acc),
    ensures
        entry_flat(acc, prefix, ev, a, fuel) matches Some(x) ==> keys_unique(x),
    decreases fuel, 0nat,
{
    if kind_at(ev, a) == NodeKind::AttrpathValue {
        if let Some(kv) = entry_parts(prefix, ev, a) {
            if kind_at(ev, kv.1) == NodeKind::AttrSet {
                if fuel > 0 {
                    lemma_set_flat_unique(acc, kv.0, ev, kv.1, (fuel - 1) as nat);
                }
            } else {
                lemma_put_unique(acc, kv.0, text_at(ev, kv.1));
            }
        }
    }
}

/// The header and the body's set of a document's walk: the expression is the
/// root's first child; when it is a lambda, the header is what precedes the
/// set that its lambdas wrap.
pub open spec fn body_of(ev: Seq<EventView>) -> Option<(Option<Seq<char>>, int)> {
    match children(ev, 0) {
        Some(cs) => match first_value(ev, cs) {
            Some(e) => match unwrap_set(ev, e, ev.len()) {
                Some(s) => Some((
                    if kind_at(ev, e) == NodeKind::Lambda {
                        Some(crate::ast_utils::header_text(text_at(ev, e), text_at(ev, s)))
                    } else {
                        None
                    },
                    s,
                )),
                None => None,
            },
            None => None,
        },
        None => None,
    }
}



proof fn lemma_children_from_valid(ev: Seq<EventView>, j: int, fuel: nat)
    ensures
        children_from(ev, j, fuel) matches Some(r) ==> j < r.1 <= ev.len() && forall|x: int| 0 <= x < r.0.len() ==> #[trigger] is_enter(ev, r.0[x]),
    decreases fuel,
{
    if fuel > 0 && 0 <= j < ev.len() && !(ev[j] is Leave) {
        lemma_children_from_valid(ev, j + 1, (fuel - 1) as nat);
        if let Some(inner) = children_from(ev, j + 1, (fuel - 1) as nat) {
            lemma_children_from_valid(ev, inner.1, (fuel - 1) as nat);
            if let Some(rest) = children_from(ev, inner.1, (fuel - 1) as nat) {
                let s = seq![j] + rest.0;
                assert forall|x: int| 0 <= x < s.len() implies #[trigger] is_enter(ev, s[x]) by {
                    if x > 0 {
                        assert(s[x] == rest.0[x - 1]);
                    }
                }
            }
        }
    }
}

/// `r` with `acc` before its entries.
pub open spec fn after(acc: Seq<int>, r: Option<(Seq<int>, int)>) -> Option<(Seq<int>, int)> {
    match r {
        Some(x) => Some((acc + x.0, x.1)),
        None => None,
    }
}

/// Walks the children from index `j` in a loop over siblings, recursing
/// only into each child's own children.
fn children_from_exec(ev: &Vec<SyntaxEvent>, j: usize, fuel: usize) -> (r: Option<(Vec<usize>, usize)>)
    ensures
        match children_from(events_view(ev@), j as int, fuel as nat) {
            Some(s) => r matches Some(x) && x.0@.map_values(|c: usize| c as int) == s.0 && x.1 as int == s.1,
            None => r is None,
        },
    decreases fuel,
{
    let ghost v = events_view(ev@);
    let mut acc: Vec<usize> = Vec::new();
    let mut cur = j;
    let mut f = fuel;
    proof {
        assert(acc@.map_values(|c: usize| c as int) =~= Seq::<int>::empty());
        if let Some(x) = children_from(v, j as int, fuel as nat) {
            assert(Seq::<int>::empty() + x.0 =~= x.0);
        }
    }
    loop
        invariant
            v == events_view(ev@),
            f <= fuel,
            children_from(v, j as int, fuel as nat) == after(acc@.map_values(|c: usize| c as int), children_from(v, cur as int, f as nat)),
        decreases f,
    {
        if f == 0 || cur >= ev.len() {
            return None;
        }
        match &ev[cur] {
            SyntaxEvent::Leave => {
                proof {
                    assert(acc@.map_values(|c: usize| c as int) + Seq::<int>::empty() =~= acc@.map_values(|c: usize| c as int));
                }
                return Some((acc, cur + 1));
            },
            SyntaxEvent::Enter(..) => {
                proof {
                    lemma_children_from_valid(v, cur + 1, (f - 1) as nat);
                }
                match children_from_exec(ev, cur + 1, f - 1) {
                    Some((_, k)) => {
                        let ghost before = acc@.map_values(|c: usize| c as int);
                        acc.push(cur);
                        proof {
                            assert(acc@.map_values(|c: usize| c as int) =~= before.push(cur as int));
                            if let Some(rest) = children_from(v, k as int, (f - 1) as nat) {
                                assert(before + (seq![cur as int] + rest.0) =~= before.push(cur as int) + rest.0);
                            }
                        }
                        cur = k;
                        f = f - 1;
                    },
                    None => {
                        return None;
                    },
                }
            },
        }
    }
}

/// The entries of the children of the node entered at `i`.
fn children_exec(ev: &Vec<SyntaxEvent>, i: usize) -> (r: Option<Vec<usize>>)
    ensures
        match children(events_view(ev@), i as int) {
            Some(s) => r matches Some(x) && x@.map_values(|c: usize| c as int) == s
                && forall|y: int| 0 <= y < x@.len() ==> #[trigger] is_enter(events_view(ev@), x@[y] as int),
            None => r is None,
        },
{
    let ghost v = events_view(ev@);
    if i >= ev.len() {
        return None;
    }
    match &ev[i] {
        SyntaxEvent::Leave => None,
        SyntaxEvent::Enter(..) => {
            proof {
                lemma_children_from_valid(v, i + 1, ev@.len() as nat);
            }
            match children_from_exec(ev, i + 1, ev.len()) {
                Some((cs, _)) => {
                    proof {
                        assert forall|y: int| 0 <= y < cs@.len() implies #[trigger] is_enter(v, cs@[y] as int) by {
                            assert(cs@.map_values(|c: usize| c as int)[y] == cs@[y] as int);
                        }
                    }
                    Some(cs)
                },
                None => None,
            }
        },
    }
}

pub open spec fn opt_int(r: Option<usize>) -> Option<int> {
    match r {
        Some(c) => Some(c as int),
        None => None,
    }
}

fn kind_of(ev: &Vec<SyntaxEvent>, i: usize) -> (r: NodeKind)
    requires
        is_enter(events_view(ev@), i as int),
    ensures
        r == kind_at(events_view(ev@), i as int),
{
    match &ev[i] {
        SyntaxEvent::Enter(k, _, _, _, _) => *k,
        SyntaxEvent::Leave => NodeKind::Other,
    }
}

fn text_of(ev: &Vec<SyntaxEvent>, i: usize) -> (r: String)
    requires
        is_enter(events_view(ev@), i as int),
    ensures
        r@ == text_at(events_view(ev@), i as int),
{
    match &ev[i] {
        SyntaxEvent::Enter(_, t, _, _, _) => t.clone(),
        SyntaxEvent::Leave => String::new(),
    }
}

/// Finds the first of `cs` that is a value (`want_path` false) or an
/// attribute path (`want_path` true).
#[verifier::loop_isolation(false)]
fn first_of(ev: &Vec<SyntaxEvent>, cs: &Vec<usize>, want_path: bool) -> (r: Option<usize>)
    requires
        forall|y: int| 0 <= y < cs@.len() ==> #[trigger] is_enter(events_view(ev@), cs@[y] as int),
    ensures
        want_path ==> opt_int(r) == first_attrpath(events_view(ev@), cs@.map_values(|c: usize| c as int)),
        !want_path ==> opt_int(r) == first_value(events_view(ev@), cs@.map_values(|c: usize| c as int)),
        r matches Some(c) ==> is_enter(events_view(ev@), c as int),
{
    let ghost v = events_view(ev@);
    let ghost s = cs@.map_values(|c: usize| c as int);
    let mut i: usize = 0;
    proof {
        assert(s.skip(0) =~= s);
    }
    while i < cs.len()
        invariant
            i <= cs@.len(),
            s == cs@.map_values(|c: usize| c as int),
            forall|y: int| 0 <= y < cs@.len() ==> #[trigger] is_enter(v, cs@[y] as int),
            want_path ==> first_attrpath(v, s) == first_attrpath(v, s.skip(i as int)),
            !want_path ==> first_value(v, s) == first_value(v, s.skip(i as int)),
        decreases cs@.len() - i,
    {
        proof {
            assert(is_enter(v, cs@[i as int] as int));
        }
        let k = kind_of(ev, cs[i]);
        let ghost t = s.skip(i as int);
        proof {
            assert(t[0] == cs@[i as int] as int);
            assert(t.drop_first() =~= s.skip(i + 1));
        }
        let hit = if want_path {
            k == NodeKind::Attrpath
        } else {
            k != NodeKind::Attrpath && k != NodeKind::Param
        };
        if hit {
            return Some(cs[i]);
        }
        i += 1;
    }
    proof {
        assert(s.skip(i as int).len() == 0);
    }
    None
}


fn unwrap_set_exec(ev: &Vec<SyntaxEvent>, e: usize, fuel: usize) -> (r: Option<usize>)
    ensures
        opt_int(r) == unwrap_set(events_view(ev@), e as int, fuel as nat),
        r matches Some(x) ==> is_enter(events_view(ev@), x as int),
    decreases fuel,
{
    let ghost v = events_view(ev@);
    if fuel == 0 || e >= ev.len() {
        return None;
    }
    if let SyntaxEvent::Leave = &ev[e] {
        return None;
    }
    let k = kind_of(ev, e);
    if k == NodeKind::AttrSet {
        Some(e)
    } else if k == NodeKind::Lambda {
        match children_exec(ev, e) {
            Some(cs) => match first_of(ev, &cs, false) {
                Some(b) => unwrap_set_exec(ev, b, fuel - 1),
                None => None,
            },
            None => None,
        }
    } else {
        None
    }
}

/// The texts of the nodes entered at `cs`.
fn texts_exec(ev: &Vec<SyntaxEvent>, cs: &Vec<usize>) -> (r: Vec<String>)
    requires
        forall|y: int| 0 <= y < cs@.len() ==> #[trigger] is_enter(events_view(ev@), cs@[y] as int),
    ensures
        seg_views(r@) == texts(events_view(ev@), cs@.map_values(|c: usize| c as int)),
{
    let mut out: Vec<String> = Vec::new();
    let mut i: usize = 0;
    while i < cs.len()
        invariant
            i <= cs@.len(),
            forall|y: int| 0 <= y < cs@.len() ==> #[trigger] is_enter(events_view(ev@), cs@[y] as int),
            seg_views(out@) =~= texts(events_view(ev@), cs@.map_values(|c: usize| c as int)).take(i as int),
        decreases cs@.len() - i,
    {
        let t = text_of(ev, cs[i]);
        let ghost before = out@;
        out.push(t);
        proof {
            let full = texts(events_view(ev@), cs@.map_values(|c: usize| c as int));
            assert(full[i as int] == text_at(events_view(ev@), cs@[i as int] as int));
            assert(seg_views(out@) =~= seg_views(before).push(full[i as int]));
            assert(full.take(i + 1) =~= full.take(i as int).push(full[i as int]));
        }
        i += 1;
    }
    proof {
        assert(texts(events_view(ev@), cs@.map_values(|c: usize| c as int)).take(i as int)
            =~= texts(events_view(ev@), cs@.map_values(|c: usize| c as int)));
    }
    out
}

fn entry_parts_exec(prefix: &String, ev: &Vec<SyntaxEvent>, a: usize) -> (r: Option<(String, usize)>)
    ensures
        match entry_parts(prefix@, events_view(ev@), a as int) {
            Some(kv) => r matches Some(x) && x.0@ == kv.0 && x.1 as int == kv.1 && is_enter(events_view(ev@), kv.1),
            None => r is None,
        },
{
    match children_exec(ev, a) {
        Some(cs) => match (first_of(ev, &cs, true), first_of(ev, &cs, false)) {
            (Some(p), Some(v)) => match children_exec(ev, p) {
                Some(segs) => {
                    let ts = texts_exec(ev, &segs);
                    let key = make_key(prefix, &normalize_path(&ts));
                    Some((key, v))
                },
                None => None,
            },
            _ => None,
        },
        None => None,
    }
}

proof fn lemma_entries_none(m: Seq<(Seq<char>, Seq<char>)>, prefix: Seq<char>, ev: Seq<EventView>, cs: Seq<int>, i: int, fuel: nat)
    requires
        0 <= i <= cs.len(),
        entries_flat(m, prefix, ev, cs.take(i), fuel) is None,
    ensures
        entries_flat(m, prefix, ev, cs, fuel) is None,
    decreases cs.len(),
{
    if i == cs.len() {
        assert(cs.take(i) =~= cs);
    } else {
        assert(cs.drop_last().take(i) =~= cs.take(i));
        lemma_entries_none(m, prefix, ev, cs.drop_last(), i, fuel);
    }
}

fn entry_flat_exec(m: &mut Vec<(String, String)>, prefix: &String, ev: &Vec<SyntaxEvent>, a: usize, fuel: usize) -> (ok: bool)
    requires
        is_enter(events_view(ev@), a as int),
    ensures
        match entry_flat(flat_view(old(m)@), prefix@, events_view(ev@), a as int, fuel as nat) {
            Some(x) => ok && flat_view(final(m)@) == x,
            None => !ok,
        },
    decreases fuel, 0nat,
{
    if kind_of(ev, a) != NodeKind::AttrpathValue {
        return true;
    }
    match entry_parts_exec(prefix, ev, a) {
        Some((key, v)) => {
            if kind_of(ev, v) == NodeKind::AttrSet {
                if fuel == 0 {
                    false
                } else {
                    set_flat_exec(m, &key, ev, v, fuel - 1)
                }
            } else {
                let t = text_of(ev, v);
                put_entry(m, key, t);
                true
            }
        },
        None => true,
    }
}

/// Records every leaf of the set entered at `s` into `m`, below `prefix`;
/// `false` where the walk does not have the shape of a set.
#[verifier::loop_isolation(false)]
fn set_flat_exec(m: &mut Vec<(String, String)>, prefix: &String, ev: &Vec<SyntaxEvent>, s: usize, fuel: usize) -> (ok: bool)
    ensures
        match set_flat(flat_view(old(m)@), prefix@, events_view(ev@), s as int, fuel as nat) {
            Some(x) => ok && flat_view(final(m)@) == x,
            None => !ok,
        },
    decreases fuel, 1nat,
{
    let ghost v = events_view(ev@);
    let ghost m0 = flat_view(m@);
    if fuel == 0 {
        return false;
    }
    match children_exec(ev, s) {
        Some(cs) => {
            let ghost ci = cs@.map_values(|c: usize| c as int);
            let mut i: usize = 0;
            proof {
                assert(ci.take(0) =~= Seq::<int>::empty());
            }
            while i < cs.len()
                invariant
                    i <= cs@.len(),
                    entries_flat(m0, prefix@, v, ci.take(i as int), (fuel - 1) as nat) == Some(flat_view(m@)),
                decreases cs@.len() - i,
            {
                proof {
                    assert(ci.take(i + 1).drop_last() =~= ci.take(i as int));
                    assert(ci.take(i + 1).last() == cs@[i as int] as int);
                    assert(is_enter(v, cs@[i as int] as int));
                }
                if !entry_flat_exec(m, prefix, ev, cs[i], fuel - 1) {
                    proof {
                        lemma_entries_none(m0, prefix@, v, ci, i + 1, (fuel - 1) as nat);
                    }
                    return false;
                }
                i += 1;
            }
            proof {
                assert(ci.take(i as int) =~= ci);
            }
            true
        },
        None => false,
    }
}

proof fn lemma_assigns_none(m: Seq<AssignView>, prefix: Seq<char>, ev: Seq<EventView>, cs: Seq<int>, i: int, fuel: nat)
    requires
        0 <= i <= cs.len(),
        entries_assigns(m, prefix, ev, cs.take(i), fuel) is None,
    ensures
        entries_assigns(m, prefix, ev, cs, fuel) is None,
    decreases cs.len(),
{
    if i == cs.len() {
        assert(cs.take(i) =~= cs);
    } else {
        assert(cs.drop_last().take(i) =~= cs.take(i));
        lemma_assigns_none(m, prefix, ev, cs.drop_last(), i, fuel);
    }
}

fn entry_assigns_exec(m: &mut Vec<Assignment>, prefix: &String, ev: &Vec<SyntaxEvent>, a: usize, fuel: usize) -> (ok: bool)
    requires
        is_enter(events_view(ev@), a as int),
    ensures
        match entry_assigns(assign_views(old(m)@), prefix@, events_view(ev@), a as int, fuel as nat) {
            Some(x) => ok && assign_views(final(m)@) == x,
            None => !ok,
        },
    decreases fuel, 0nat,
{
    if kind_of(ev, a) != NodeKind::AttrpathValue {
        return true;
    }
    match entry_parts_exec(prefix, ev, a) {
        Some((key, v)) => {
            if kind_of(ev, v) == NodeKind::AttrSet {
                if fuel == 0 {
                    false
                } else {
                    set_assigns_exec(m, &key, ev, v, fuel - 1)
                }
            } else {
                let x = assignment_of(ev, a, key);
                put_assignment(m, x);
                true
            }
        },
        None => true,
    }
}

/// Records every leaf assignment of the set entered at `s` into `m`;
/// `false` where the walk does not have the shape of a set.
#[verifier::loop_isolation(false)]
fn set_assigns_exec(m: &mut Vec<Assignment>, prefix: &String, ev: &Vec<SyntaxEvent>, s: usize, fuel: usize) -> (ok: bool)
    ensures
        match set_assigns(assign_views(old(m)@), prefix@, events_view(ev@), s as int, fuel as nat) {
            Some(x) => ok && assign_views(final(m)@) == x,
            None => !ok,
        },
    decreases fuel, 1nat,
{
    let ghost v = events_view(ev@);
    let ghost m0 = assign_views(m@);
    if fuel == 0 {
        return false;
    }
    match children_exec(ev, s) {
        Some(cs) => {
            let ghost ci = cs@.map_values(|c: usize| c as int);
            let mut i: usize = 0;
            proof {
                assert(ci.take(0) =~= Seq::<int>::empty());
            }
            while i < cs.len()
                invariant
                    i <= cs@.len(),
                    entries_assigns(m0, prefix@, v, ci.take(i as int), (fuel - 1) as nat) == Some(assign_views(m@)),
                decreases cs@.len() - i,
            {
                proof {
                    assert(ci.take(i + 1).drop_last() =~= ci.take(i as int));
                    assert(ci.take(i + 1).last() == cs@[i as int] as int);
                    assert(is_enter(v, cs@[i as int] as int));
                }
                if !entry_assigns_exec(m, prefix, ev, cs[i], fuel - 1) {
                    proof {
                        lemma_assigns_none(m0, prefix@, v, ci, i + 1, (fuel - 1) as nat);
                    }
                    return false;
                }
                i += 1;
            }
            proof {
                assert(ci.take(i as int) =~= ci);
            }
            true
        },
        None => false,
    }
}

/// Finds the header and the body's set of a document's walk.
pub fn body_exec(ev: &Vec<SyntaxEvent>) -> (r: Option<(Option<String>, usize)>)
    ensures
        match body_of(events_view(ev@)) {
            Some(b) => r matches Some(x) && opt_view(x.0) == b.0 && x.1 as int == b.1,
            None => r is None,
        },
{
    match children_exec(ev, 0) {
        Some(cs) => match first_of(ev, &cs, false) {
            Some(e) => match unwrap_set_exec(ev, e, ev.len()) {
                Some(s) => {
                    let header = if kind_of(ev, e) == NodeKind::Lambda {
                        Some(strip_body(&text_of(ev, e), &text_of(ev, s)))
                    } else {
                        None
                    };
                    Some((header, s))
                },
                None => None,
            },
            None => None,
        },
        None => None,
    }
}

pub open spec fn opt_view(h: Option<String>) -> Option<Seq<char>> {
    match h {
        Some(x) => Some(x@),
        None => None,
    }
}

/// The flat map of the set entered at `s`, if the walk has its shape.
pub fn flat_of_set(ev: &Vec<SyntaxEvent>, s: usize) -> (r: Option<Vec<(String, String)>>)
    ensures
        match set_flat(Seq::empty(), Seq::empty(), events_view(ev@), s as int, ev@.len() as nat) {
            Some(x) => r matches Some(m) && flat_view(m@) == x,
            None => r is None,
        },
{
    let mut m: Vec<(String, String)> = Vec::new();
    let prefix = String::new();
    proof {
        assert(flat_view(m@) =~= Seq::<(Seq<char>, Seq<char>)>::empty());
        assert(prefix@ =~= Seq::<char>::empty());
    }
    if set_flat_exec(&mut m, &prefix, ev, s, ev.len()) {
        Some(m)
    } else {
        None
    }
}


fn assignment_of(ev: &Vec<SyntaxEvent>, i: usize, key: String) -> (r: Assignment)
    requires
        is_enter(events_view(ev@), i as int),
    ensures
        r.view() == assign_at(events_view(ev@), i as int, key@),
{
    match &ev[i] {
        SyntaxEvent::Enter(_, _, b, s, e) => Assignment { path: key, start: *s, end: *e, text: b.clone() },
        SyntaxEvent::Leave => Assignment { path: key, start: 0, end: 0, text: Vec::new() },
    }
}

fn put_assignment(m: &mut Vec<Assignment>, a: Assignment)
    ensures
        assign_views(final(m)@) == put_assign(assign_views(old(m)@), a.view()),
{
    let ghost before = m@;
    match find_assignment(m, &a.path) {
        Some(i) => {
            m.remove(i);
            m.push(a);
            proof {
                assert(assign_views(m@) =~= assign_views(before).remove(i as int).push(a.view()));
            }
        },
        None => {
            m.push(a);
            proof {
                assert(assign_views(m@) =~= assign_views(before).push(a.view()));
            }
        },
    }
}

/// The leaf assignments of the set entered at `s`, if the walk has its shape.
pub fn assigns_of_set(ev: &Vec<SyntaxEvent>, s: usize) -> (r: Option<Vec<Assignment>>)
    ensures
        match set_assigns(Seq::empty(), Seq::empty(), events_view(ev@), s as int, ev@.len() as nat) {
            Some(x) => r matches Some(m) && assign_views(m@) == x,
            None => r is None,
        },
{
    let mut m: Vec<Assignment> = Vec::new();
    let prefix = String::new();
    proof {
        assert(assign_views(m@) =~= Seq::<AssignView>::empty());
        assert(prefix@ =~= Seq::<char>::empty());
    }
    if set_assigns_exec(&mut m, &prefix, ev, s, ev.len()) {
        Some(m)
    } else {
        None
    }
}

} // verus!
