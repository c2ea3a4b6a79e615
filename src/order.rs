//! Stable ordering of indices by integer keys.
use vstd::prelude::*;

verus! {

/// Index `a` comes before index `b`: a smaller key, or an equal key and a smaller index.
pub open spec fn before(keys: Seq<int>, a: int, b: int) -> bool {
    keys[a] < keys[b] || (keys[a] == keys[b] && a < b)
}

/// `o` lists every index of `keys` once, by ascending key, equal keys in index order.
pub open spec fn is_stable_order(keys: Seq<int>, o: Seq<int>) -> bool {
    &&& o.len() == keys.len()
    &&& forall|k: int| 0 <= k < o.len() ==> 0 <= #[trigger] o[k] < keys.len()
    &&& forall|k: int, l: int| 0 <= k < l < o.len() ==> before(keys, #[trigger] o[k], #[trigger] o[l])
    &&& forall|j: int| 0 <= j < keys.len() ==> #[trigger] o.contains(j)
}

/// The indices of `keys` in the stable ascending order of their keys.
pub fn stable_order(keys: &Vec<i128>) -> (r: Vec<usize>)
    ensures
        is_stable_order(keys@.map_values(|k: i128| k as int), r@.map_values(|i: usize| i as int)),
{
    let ghost ks = keys@.map_values(|k: i128| k as int);
    let mut r: Vec<usize> = Vec::new();
    let mut i: usize = 0;
    while i < keys.len()
        invariant
            i <= keys.len(),
            ks == keys@.map_values(|k: i128| k as int),
            r@.len() == i,
            forall|k: int| 0 <= k < r@.len() ==> #[trigger] r@[k] < i,
            forall|k: int, l: int|
                0 <= k < l < r@.len() ==> before(ks, #[trigger] r@[k] as int, #[trigger] r@[l] as int),
            forall|j: usize| 0 <= j < i ==> #[trigger] r@.contains(j),
        decreases keys.len() - i,
    {
        let mut p: usize = 0;
        while p < r.len() && keys[r[p]] <= keys[i]
            invariant
                i < keys.len(),
                p <= r@.len(),
                ks == keys@.map_values(|k: i128| k as int),
                forall|k: int| 0 <= k < r@.len() ==> #[trigger] r@[k] < i,
                forall|k: int| 0 <= k < p ==> before(ks, #[trigger] r@[k] as int, i as int),
            decreases r@.len() - p,
        {
            p = p + 1;
        }
        let ghost old_r = r@;
        assert forall|k: int| p <= k < old_r.len() implies before(ks, i as int, #[trigger] old_r[k] as int) by {
            // the first entry at or after p has a larger key; sortedness carries it on
            if k > p {
                assert(before(ks, old_r[p as int] as int, old_r[k] as int));
            }
        };
        r.insert(p, i);
        assert forall|j: usize| 0 <= j < i + 1 implies #[trigger] r@.contains(j) by {
            if j == i {
                assert(r@[p as int] == j);
            } else {
                assert(old_r.contains(j));
                let k0 = choose|k: int| 0 <= k < old_r.len() && old_r[k] == j;
                if k0 < p {
                    assert(r@[k0] == j);
                } else {
                    assert(r@[k0 + 1] == j);
                }
            }
        };
        i = i + 1;
    }
    let ghost ro = r@.map_values(|i: usize| i as int);
    assert forall|j: int| 0 <= j < ks.len() implies #[trigger] ro.contains(j) by {
        assert(r@.contains(j as usize));
        let k0 = choose|k: int| 0 <= k < r@.len() && r@[k] == j as usize;
        assert(ro[k0] == j);
    };
    r
}

} // verus!
