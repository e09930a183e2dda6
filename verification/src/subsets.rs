//! Subset enumerator: for a bitmask `s`, the finite sequence of all nonzero
//! proper submasks of `s`, in increasing order. The merge step of the main
//! loop combines each submask with its complement, so the enumeration order
//! only influences which of several equally cheap predecessors is recorded.

use vstd::prelude::*;

verus! {

/// The nonzero proper submasks of `s` that are at least `t`, in increasing
/// order.
pub open spec fn submask_list(s: usize, t: usize) -> Seq<usize>
    decreases s - t,
{
    if t == 0 || t >= s {
        Seq::empty()
    } else if t & s == t {
        seq![t] + submask_list(s, (t + 1) as usize)
    } else {
        submask_list(s, (t + 1) as usize)
    }
}

/// Every listed submask is nonzero, proper, and contained in `s`.
pub proof fn lemma_submask_list_props(s: usize, t: usize)
    ensures
        forall|q: int|
            0 <= q < submask_list(s, t).len() ==> 0 < (#[trigger] submask_list(s, t)[q]) < s && (
            submask_list(s, t)[q] & s) == submask_list(s, t)[q],
    decreases s - t,
{
    if t == 0 || t >= s {
    } else {
        lemma_submask_list_props(s, (t + 1) as usize);
        let rest = submask_list(s, (t + 1) as usize);
        if t & s == t {
            assert forall|q: int|
                0 <= q < submask_list(s, t).len() implies 0 < (#[trigger] submask_list(s, t)[q])
                < s && (submask_list(s, t)[q] & s) == submask_list(s, t)[q] by {
                if q == 0 {
                    assert(submask_list(s, t)[0] == t);
                } else {
                    assert(submask_list(s, t)[q] == rest[q - 1]);
                }
            }
        }
    }
}

/// All nonzero proper submasks of `s` (masks `x` with `x & s == x` and
/// `0 < x < s`), in increasing order.
pub fn subsets(s: usize) -> (r: Vec<usize>)
    ensures
        r@ == submask_list(s, 1),
        forall|q: int|
            0 <= q < r@.len() ==> 0 < #[trigger] r@[q] < s && (r@[q] & s) == r@[q],
{
    let mut r: Vec<usize> = Vec::new();
    if s == 0 {
        return r;
    }
    let mut t: usize = 1;
    while t < s
        invariant
            1 <= t <= s,
            submask_list(s, 1) == r@ + submask_list(s, t),
            forall|q: int|
                0 <= q < r@.len() ==> 0 < #[trigger] r@[q] < s && (r@[q] & s) == r@[q],
        decreases s - t,
    {
        if t & s == t {
            let ghost old_r = r@;
            r.push(t);
            proof {
                assert(submask_list(s, t as usize) == seq![t] + submask_list(s, (t + 1) as usize));
                assert(old_r + (seq![t] + submask_list(s, (t + 1) as usize)) =~= r@ + submask_list(
                    s,
                    (t + 1) as usize,
                ));
            }
        } else {
            proof {
                assert(submask_list(s, t as usize) == submask_list(s, (t + 1) as usize));
            }
        }
        t = t + 1;
    }
    proof {
        assert(submask_list(s, s) =~= Seq::<usize>::empty());
        assert(r@ + Seq::<usize>::empty() =~= r@);
    }
    r
}

} // verus!
