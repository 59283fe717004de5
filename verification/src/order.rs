//! Stable sorting by keys.

use vstd::prelude::*;

verus! {

/// Whether index `a` comes before index `b`: by key, and by position among equal keys.
pub open spec fn before(keys: Seq<i128>, a: int, b: int) -> bool {
    keys[a] < keys[b] || (keys[a] == keys[b] && a < b)
}

/// Whether a list holds each index of `keys` once, in the order of `before`.
pub open spec fn is_order(keys: Seq<i128>, order: Seq<usize>) -> bool {
    &&& order.len() == keys.len()
    &&& forall|i: int| 0 <= i < order.len() ==> (#[trigger] order[i]) < keys.len()
    &&& forall|i: int, j: int|
        0 <= i < j < order.len() ==> before(
            keys,
            #[trigger] order[i] as int,
            #[trigger] order[j] as int,
        )
    &&& forall|k: int| 0 <= k < keys.len() ==> order.contains(#[trigger] (k as usize))
}

/// The indexes of keys in ascending order of the keys; equal keys keep their order.
pub fn order_by_key(keys: &[i128]) -> (order: Vec<usize>)
    ensures
        is_order(keys@, order@),
{
    let mut order: Vec<usize> = Vec::new();
    let mut i: usize = 0;
    while i < keys.len()
        invariant
            i <= keys@.len(),
            order@.len() == i,
            forall|a: int| 0 <= a < order@.len() ==> (#[trigger] order@[a]) < i,
            forall|a: int, b: int|
                0 <= a < b < order@.len() ==> before(
                    keys@,
                    #[trigger] order@[a] as int,
                    #[trigger] order@[b] as int,
                ),
            forall|k: int| 0 <= k < i ==> order@.contains(#[trigger] (k as usize)),
        decreases keys@.len() - i,
    {
        let mut p: usize = order.len();
        while p > 0 && keys[i] < keys[order[p - 1]]
            invariant
                i < keys@.len(),
                p <= order@.len(),
                forall|a: int| 0 <= a < order@.len() ==> (#[trigger] order@[a]) < i,
                forall|a: int|
                    p <= a < order@.len() ==> keys@[i as int] < keys@[#[trigger] order@[a] as int],
            decreases p,
        {
            p = p - 1;
        }
        let ghost old_order = order@;
        order.insert(p, i);
        proof {
            let now = order@;
            assert forall|a: int| 0 <= a < now.len() implies (#[trigger] now[a]) < i + 1 by {
                if a != p {
                    let x = if a < p { a } else { a - 1 };
                    assert(now[a] == old_order[x]);
                }
            }
            assert forall|a: int, b: int| 0 <= a < b < now.len() implies before(
                keys@,
                #[trigger] now[a] as int,
                #[trigger] now[b] as int,
            ) by {
                let x = if a < p { a } else { a - 1 };
                let y = if b < p { b } else { b - 1 };
                if a != p {
                    assert(now[a] == old_order[x]);
                }
                if b != p {
                    assert(now[b] == old_order[y]);
                }
                if a != p && b != p {
                    assert(before(keys@, old_order[x] as int, old_order[y] as int));
                } else if a == p {
                    assert(keys@[i as int] < keys@[old_order[y] as int]);
                } else {
                    assert(old_order[p - 1] < i);
                    if a < p - 1 {
                        assert(before(keys@, old_order[a] as int, old_order[p - 1] as int));
                    }
                }
            }
            assert forall|k: int| 0 <= k < i + 1 implies now.contains(#[trigger] (k as usize)) by {
                if k == i {
                    assert(now[p as int] == i);
                } else {
                    assert(old_order.contains(k as usize));
                    let x = choose|x: int| 0 <= x < old_order.len() && old_order[x] == k as usize;
                    let a = if x < p { x } else { x + 1 };
                    assert(now[a] == old_order[x]);
                }
            }
        }
        i = i + 1;
    }
    order
}

} // verus!
