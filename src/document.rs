//! A document's structure as plain values, and its flattening into a map
//! from dotted key to expression text.
use vstd::prelude::*;

verus! {

broadcast use vstd::std_specs::vec::group_vec_axioms, vstd::seq::group_seq_axioms;

/// The right-hand side of a binding: a nested attribute set, or any other
/// expression, kept as its source text.
pub enum Value {
    Attrs(Vec<Binding>),
    Expr(String),
}

/// One `path = value;` entry of an attribute set, its path already
/// normalized to dotted form.
pub struct Binding {
    pub path: String,
    pub value: Value,
}

/// A document: the optional header text before its body, and the bindings
/// of the body's attribute set, in document order.
pub struct Document {
    pub header: Option<String>,
    pub body: Vec<Binding>,
}

/// The first index of `m` whose key is `k`, if any.
pub open spec fn find_flat(m: Seq<(Seq<char>, Seq<char>)>, k: Seq<char>) -> Option<int>
    decreases m.len(),
{
    if m.len() == 0 {
        None
    } else {
        match find_flat(m.drop_last(), k) {
            Some(i) => Some(i),
            None => if m.last().0 == k { Some(m.len() - 1) } else { None },
        }
    }
}

/// Records `k -> v` in `m`: an existing key gets the new value in place,
/// a new key is appended.
pub open spec fn put(m: Seq<(Seq<char>, Seq<char>)>, k: Seq<char>, v: Seq<char>) -> Seq<(Seq<char>, Seq<char>)> {
    match find_flat(m, k) {
        Some(i) => m.update(i, (k, v)),
        None => m.push((k, v)),
    }
}

/// The key of a binding with path `p` below `prefix`.
pub open spec fn join_key(prefix: Seq<char>, p: Seq<char>) -> Seq<char> {
    if prefix.len() == 0 {
        p
    } else {
        prefix + seq!['.'] + p
    }
}

/// `m` after recording every leaf of `bs`, below `prefix`, in document order.
pub open spec fn flat_into(m: Seq<(Seq<char>, Seq<char>)>, prefix: Seq<char>, bs: Seq<Binding>) -> Seq<(Seq<char>, Seq<char>)>
    decreases bs,
{
    if bs.len() == 0 {
        m
    } else {
        let acc = flat_into(m, prefix, bs.drop_last());
        let b = bs.last();
        let key = join_key(prefix, b.path@);
        match b.value {
            Value::Attrs(inner) => flat_into(acc, key, inner@),
            Value::Expr(e) => put(acc, key, e@),
        }
    }
}

/// The flat map of a list of bindings.
pub open spec fn flat_of(bs: Seq<Binding>) -> Seq<(Seq<char>, Seq<char>)> {
    flat_into(Seq::empty(), Seq::empty(), bs)
}

/// The view of a flat map.
pub open spec fn flat_view(f: Seq<(String, String)>) -> Seq<(Seq<char>, Seq<char>)> {
    f.map_values(|e: (String, String)| (e.0@, e.1@))
}

/// No key occurs twice in `m`.
pub open spec fn keys_unique(m: Seq<(Seq<char>, Seq<char>)>) -> bool {
    forall|i: int, j: int| 0 <= i < j < m.len() ==> m[i].0 != m[j].0
}

proof fn lemma_find_flat(m: Seq<(Seq<char>, Seq<char>)>, k: Seq<char>)
    ensures
        match find_flat(m, k) {
            Some(i) => 0 <= i < m.len() && m[i].0 == k && forall|j: int| 0 <= j < i ==> m[j].0 != k,
            None => forall|j: int| 0 <= j < m.len() ==> m[j].0 != k,
        },
    decreases m.len(),
{
    if m.len() > 0 {
        lemma_find_flat(m.drop_last(), k);
        assert(forall|j: int| 0 <= j < m.len() - 1 ==> m.drop_last()[j] == m[j]);
    }
}

pub proof fn lemma_put_unique(m: Seq<(Seq<char>, Seq<char>)>, k: Seq<char>, v: Seq<char>)
    requires
        keys_unique(m),
    ensures
        keys_unique(put(m, k, v)),
{
    lemma_find_flat(m, k);
}

pub proof fn lemma_flat_into_unique(m: Seq<(Seq<char>, Seq<char>)>, prefix: Seq<char>, bs: Seq<Binding>)
    requires
        keys_unique(m),
    ensures
        keys_unique(flat_into(m, prefix, bs)),
    decreases bs,
{
    if bs.len() > 0 {
        lemma_flat_into_unique(m, prefix, bs.drop_last());
        let acc = flat_into(m, prefix, bs.drop_last());
        let b = bs.last();
        match b.value {
            Value::Attrs(inner) => {
                lemma_flat_into_unique(acc, join_key(prefix, b.path@), inner@);
            },
            Value::Expr(e) => {
                lemma_put_unique(acc, join_key(prefix, b.path@), e@);
            },
        }
    }
}

/// The key of a binding with path `p` below `prefix`.
pub fn make_key(prefix: &String, p: &String) -> (r: String)
    ensures
        r@ == join_key(prefix@, p@),
{
    proof {
        reveal_strlit(".");
        assert("."@ =~= seq!['.']);
    }
    if prefix.as_str().unicode_len() == 0 {
        p.clone()
    } else {
        let mut k = prefix.clone();
        k.append(".");
        k.append(p.as_str());
        k
    }
}

/// Records `k -> v` in the flat map `m`.
#[verifier::loop_isolation(false)]
pub(crate) fn put_entry(m: &mut Vec<(String, String)>, k: String, v: String)
    ensures
        flat_view(final(m)@) == put(flat_view(old(m)@), k@, v@),
{
    let ghost mv = flat_view(m@);
    let ghost m0 = m@;
    proof {
        lemma_find_flat(mv, k@);
    }
    let mut j: usize = 0;
    while j < m.len()
        invariant
            j <= m@.len(),
            m@ == m0,
            mv == flat_view(m0),
            forall|x: int| 0 <= x < j ==> m0[x].0@ != k@,
        decreases m@.len() - j,
    {
        if m[j].0 == k {
            proof {
                lemma_find_flat(mv, k@);
                assert(mv[j as int].0 == k@);
                assert forall|x: int| 0 <= x < j implies mv[x].0 != k@ by {
                    assert(mv[x] == (m0[x].0@, m0[x].1@));
                }
                assert(find_flat(mv, k@) == Some(j as int));
            }
            let (old_k, _) = m.remove(j);
            m.insert(j, (old_k, v));
            proof {
                assert(flat_view(m@) =~= mv.update(j as int, (k@, v@)));
            }
            return;
        }
        j += 1;
    }
    proof {
        lemma_find_flat(mv, k@);
        assert forall|x: int| 0 <= x < m0.len() implies mv[x].0 != k@ by {
            assert(mv[x] == (m0[x].0@, m0[x].1@));
        }
    }
    m.push((k, v));
    proof {
        assert(flat_view(m@) =~= mv.push((k@, v@)));
    }
}

/// Records every leaf of `bs`, below `prefix`, into `m` in document order;
/// a key seen again takes the later expression.
#[verifier::loop_isolation(false)]
pub fn flatten_into(bs: &Vec<Binding>, prefix: &String, m: &mut Vec<(String, String)>)
    ensures
        flat_view(final(m)@) == flat_into(flat_view(old(m)@), prefix@, bs@),
    decreases bs,
{
    let ghost m0 = flat_view(m@);
    let mut i: usize = 0;
    proof {
        assert(bs@.take(0) =~= Seq::<Binding>::empty());
    }
    while i < bs.len()
        invariant
            i <= bs@.len(),
            flat_view(m@) == flat_into(m0, prefix@, bs@.take(i as int)),
        decreases bs@.len() - i,
    {
        proof {
            assert(bs@.take(i + 1).drop_last() =~= bs@.take(i as int));
        }
        let b = &bs[i];
        let key = make_key(prefix, &b.path);
        match &b.value {
            Value::Attrs(inner) => {
                proof {
                    assert(decreases_to!(bs => bs@));
                    assert(decreases_to!(bs@ => bs@[i as int]));
                    assert(decreases_to!(bs@[i as int] => bs@[i as int].value));
                    assert(decreases_to!(bs@[i as int].value => *inner));
                }
                flatten_into(inner, &key, m);
            },
            Value::Expr(e) => {
                put_entry(m, key, e.clone());
            },
        }
        i += 1;
    }
    proof {
        assert(bs@.take(i as int) =~= bs@);
    }
}

/// Flattens the bindings of a document body into a map from dotted key to
/// expression text, with unique keys in first-seen order.
pub fn flatten(bs: &Vec<Binding>) -> (r: Vec<(String, String)>)
    ensures
        flat_view(r@) == flat_of(bs@),
        keys_unique(flat_view(r@)),
{
    let mut m: Vec<(String, String)> = Vec::new();
    let prefix = String::new();
    proof {
        assert(flat_view(m@) =~= Seq::<(Seq<char>, Seq<char>)>::empty());
        assert(prefix@ =~= Seq::<char>::empty());
    }
    flatten_into(bs, &prefix, &mut m);
    proof {
        lemma_flat_into_unique(Seq::empty(), Seq::empty(), bs@);
    }
    m
}

} // verus!
