//! Canonical dotted form of an attribute path.
use vstd::prelude::*;
use crate::merger::seg_views;

verus! {

broadcast use vstd::std_specs::vec::group_vec_axioms, vstd::seq::group_seq_axioms;

/// The segments joined with `.` between them.
pub open spec fn dotted(segs: Seq<Seq<char>>) -> Seq<char>
    decreases segs.len(),
{
    if segs.len() == 0 {
        Seq::empty()
    } else if segs.len() == 1 {
        segs[0]
    } else {
        dotted(segs.drop_last()) + seq!['.'] + segs.last()
    }
}

/// Converts an attribute path, given as the texts of its attributes, into
/// its canonical dot-separated key.
#[verifier::loop_isolation(false)]
pub fn normalize_path(segs: &Vec<String>) -> (r: String)
    ensures
        r@ == dotted(seg_views(segs@)),
{
    proof {
        reveal_strlit(".");
        assert("."@ =~= seq!['.']);
    }
    let mut out = String::new();
    let mut i: usize = 0;
    proof {
        assert(seg_views(segs@).take(0) =~= Seq::<Seq<char>>::empty());
    }
    while i < segs.len()
        invariant
            i <= segs@.len(),
            out@ == dotted(seg_views(segs@).take(i as int)),
        decreases segs@.len() - i,
    {
        proof {
            assert(seg_views(segs@).take(i + 1).drop_last() =~= seg_views(segs@).take(i as int));
        }
        if i > 0 {
            out.append(".");
        } else {
            proof {
                assert(out@ =~= Seq::<char>::empty());
            }
        }
        out.append(segs[i].as_str());
        proof {
            let t = seg_views(segs@).take(i + 1);
            assert(t.last() == segs@[i as int]@);
            if i == 0 {
                assert(out@ =~= t[0]);
            } else {
                assert(out@ =~= dotted(t.drop_last()) + seq!['.'] + t.last());
            }
        }
        i += 1;
    }
    proof {
        assert(seg_views(segs@).take(i as int) =~= seg_views(segs@));
    }
    out
}

} // verus!
