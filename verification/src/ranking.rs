use vstd::prelude::*;

verus! {

/// Candidate `x` comes before candidate `y`: a higher key first, and on equal
/// keys the one given first (a stable sort by descending key).
pub open spec fn ranks_before(keys: Seq<i64>, x: usize, y: usize) -> bool {
    keys[x as int] > keys[y as int] || (keys[x as int] == keys[y as int] && x < y)
}

/// `o` lists distinct candidate indices below `n`.
pub open spec fn distinct_below(o: Seq<usize>, n: nat) -> bool {
    &&& forall|a: int| 0 <= a < o.len() ==> (#[trigger] o[a]) < n
    &&& forall|a: int, b: int| 0 <= a < b < o.len() ==> (#[trigger] o[a]) != (#[trigger] o[b])
}

/// `o` is in ranking order.
pub open spec fn in_rank_order(keys: Seq<i64>, o: Seq<usize>) -> bool {
    forall|a: int, b: int| 0 <= a < b < o.len() ==> ranks_before(keys, #[trigger] o[a], #[trigger] o[b])
}

/// `o` is the ranking of the `keys.len()` candidates by descending key (ties
/// in their given order), cut to its first `max` places.
pub open spec fn is_top_ranking(keys: Seq<i64>, o: Seq<usize>, max: nat) -> bool {
    &&& o.len() == if keys.len() < max { keys.len() } else { max }
    &&& distinct_below(o, keys.len())
    &&& in_rank_order(keys, o)
    &&& forall|j: usize, a: int|
        j < keys.len() && !o.contains(j) && 0 <= a < o.len() ==> #[trigger] ranks_before(keys, o[a], j)
}

/// The indices of the best `max_results` candidates by descending key, ties
/// kept in their given order: what a stable sort by descending key followed
/// by a cut to `max_results` leaves.
pub fn ranked_order(keys: &Vec<i64>, max_results: usize) -> (order: Vec<usize>)
    ensures
        is_top_ranking(keys@, order@, max_results as nat),
{
    let n = keys.len();
    let mut order: Vec<usize> = Vec::new();
    let mut i: usize = 0;
    while i < n
        invariant
            n == keys@.len(),
            i <= n,
            order@.len() == i,
            distinct_below(order@, i as nat),
            in_rank_order(keys@, order@),
            forall|j: usize| j < i ==> order@.contains(j),
        decreases n - i,
    {
        let mut p: usize = 0;
        while p < order.len() && !(keys[i] > keys[order[p]])
            invariant
                n == keys@.len(),
                i < n,
                p <= order@.len(),
                order@.len() == i,
                distinct_below(order@, i as nat),
                in_rank_order(keys@, order@),
                forall|q: int| 0 <= q < p ==> keys@[i as int] <= keys@[(#[trigger] order@[q]) as int],
            decreases order@.len() - p,
        {
            p = p + 1;
        }
        let ghost o0 = order@;
        proof {
            assert forall|q: int| p <= q < o0.len() implies keys@[(#[trigger] o0[q]) as int] < keys@[i as int] by {
                if q > p {
                    assert(ranks_before(keys@, o0[p as int], o0[q]));
                }
            }
        }
        order.insert(p, i);
        proof {
            let o = order@;
            assert(o =~= o0.subrange(0, p as int).push(i) + o0.subrange(p as int, o0.len() as int));
            assert forall|a: int| 0 <= a < o.len() implies (#[trigger] o[a]) < i + 1 by {
                if a < p {
                    assert(o[a] == o0[a]);
                } else if a > p {
                    assert(o[a] == o0[a - 1]);
                }
            }
            assert forall|a: int, b: int| 0 <= a < b < o.len() implies (#[trigger] o[a]) != (#[trigger] o[b]) by {
                if a < p && b < p {
                    assert(o[a] == o0[a] && o[b] == o0[b]);
                } else if a < p && b == p {
                    assert(o[a] == o0[a]);
                } else if a < p && b > p {
                    assert(o[a] == o0[a] && o[b] == o0[b - 1]);
                } else if a == p {
                    assert(o[b] == o0[b - 1]);
                } else {
                    assert(o[a] == o0[a - 1] && o[b] == o0[b - 1]);
                }
            }
            assert forall|j: usize| j < i + 1 implies o.contains(j) by {
                if j == i {
                    assert(o[p as int] == i);
                } else {
                    assert(o0.contains(j));
                    let q = choose|q: int| 0 <= q < o0.len() && o0[q] == j;
                    if q < p {
                        assert(o[q] == j);
                    } else {
                        assert(o[q + 1] == j);
                    }
                }
            }
            assert forall|a: int, b: int| 0 <= a < b < o.len() implies ranks_before(
                keys@,
                #[trigger] o[a],
                #[trigger] o[b],
            ) by {
                if a < p && b < p {
                    assert(o[a] == o0[a] && o[b] == o0[b]);
                } else if a < p && b == p {
                    assert(o[a] == o0[a]);
                } else if a < p && b > p {
                    assert(o[a] == o0[a] && o[b] == o0[b - 1]);
                } else if a == p {
                    assert(o[b] == o0[b - 1]);
                } else {
                    assert(o[a] == o0[a - 1] && o[b] == o0[b - 1]);
                }
            }
        }
        i = i + 1;
    }
    let ghost full = order@;
    if order.len() > max_results {
        order.truncate(max_results);
    }
    proof {
        let o = order@;
        assert(o =~= full.subrange(0, o.len() as int));
        assert forall|j: usize, a: int|
            j < keys@.len() && !o.contains(j) && 0 <= a < o.len() implies #[trigger] ranks_before(
            keys@,
            o[a],
            j,
        ) by {
            assert(full.contains(j));
            let w = choose|w: int| 0 <= w < full.len() && full[w] == j;
            if w < o.len() {
                assert(o[w] == j);
            }
            assert(full[a] == o[a]);
            assert(ranks_before(keys@, full[a], full[w]));
        }
    }
    order
}

} // verus!
