//! Orderings: permutations of indices, and a stable sort of indices by key.
use vstd::prelude::*;

verus! {

broadcast use vstd::seq_lib::group_seq_properties;

/// `s` lists each of `0..n` once.
pub open spec fn is_perm(s: Seq<usize>, n: nat) -> bool {
    &&& s.len() == n
    &&& s.no_duplicates()
    &&& forall|i: int| 0 <= i < s.len() ==> (#[trigger] s[i]) < n
    &&& forall|v: usize| v < n ==> s.contains(v)
}

/// The indices of `keys` sorted by key, equal keys in index order
/// (insertion sort).
pub fn order_by_key(keys: &Vec<u128>) -> (order: Vec<usize>)
    ensures
        is_perm(order@, keys@.len()),
        forall|i: int, j: int|
            0 <= i < j < order@.len() ==> keys@[#[trigger] order@[i] as int] <= keys@[#[trigger] order@[j] as int],
{
    let mut order: Vec<usize> = Vec::new();
    let mut k: usize = 0;
    while k < keys.len()
        invariant
            k <= keys.len(),
            is_perm(order@, k as nat),
            forall|i: int, j: int|
                0 <= i < j < order@.len() ==> keys@[#[trigger] order@[i] as int] <= keys@[#[trigger] order@[j] as int],
        decreases keys.len() - k,
    {
        let f = keys[k];
        let mut p: usize = 0;
        while p < order.len() && keys[order[p]] <= f
            invariant
                p <= order@.len(),
                is_perm(order@, k as nat),
                k < keys.len(),
                f == keys@[k as int],
                forall|q: int| 0 <= q < p ==> keys@[#[trigger] order@[q] as int] <= f,
            decreases order.len() - p,
        {
            p = p + 1;
        }
        let ghost old_order = order@;
        order.insert(p, k);
        proof {
            let no = order@;
            assert(no == old_order.insert(p as int, k));
            assert forall|i: int| 0 <= i < no.len() implies (#[trigger] no[i]) < k + 1 by {
                if i < p {
                    assert(no[i] == old_order[i]);
                } else if i > p {
                    assert(no[i] == old_order[i - 1]);
                }
            }
            assert forall|v: usize| v < k + 1 implies no.contains(v) by {
                if v < k {
                    assert(old_order.contains(v));
                    let j = choose|j: int| 0 <= j < old_order.len() && old_order[j] == v;
                    if j < p {
                        assert(no[j] == v);
                    } else {
                        assert(no[j + 1] == v);
                    }
                } else {
                    assert(no[p as int] == v);
                }
            }
            assert forall|a: int, c: int| 0 <= a < no.len() && 0 <= c < no.len() && a != c implies no[a] != no[c] by {
                let sa = if a < p { a } else { a - 1 };
                let sc = if c < p { c } else { c - 1 };
                if a != p && c != p {
                    assert(no[a] == old_order[sa] && no[c] == old_order[sc]);
                } else if a == p {
                    assert(no[c] == old_order[sc]);
                    assert(old_order[sc] < k);
                } else {
                    assert(no[a] == old_order[sa]);
                    assert(old_order[sa] < k);
                }
            }
            assert forall|i: int, j: int| 0 <= i < j < no.len() implies keys@[#[trigger] no[i] as int] <= keys@[#[trigger] no[j] as int] by {
                if j < p {
                    assert(no[i] == old_order[i] && no[j] == old_order[j]);
                } else if i > p {
                    assert(no[i] == old_order[i - 1] && no[j] == old_order[j - 1]);
                } else if j == p {
                    assert(no[i] == old_order[i]);
                } else if i == p {
                    assert(no[j] == old_order[j - 1]);
                    assert(old_order[p as int] == no[p + 1]);
                    if p < old_order.len() {
                        assert(keys@[old_order[p as int] as int] > f);
                        if j - 1 > p {
                            assert(keys@[old_order[p as int] as int] <= keys@[old_order[j - 1] as int]);
                        }
                    }
                } else {
                    assert(no[i] == old_order[i] && no[j] == old_order[j - 1]);
                }
            }
        }
        k = k + 1;
    }
    order
}

} // verus!
