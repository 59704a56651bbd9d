use vstd::prelude::*;

verus! {

/// Index `i` ranks before index `j`: a higher priority first, and between equal
/// priorities the earlier position first.
pub open spec fn ranks_before(ranks: Seq<int>, i: int, j: int) -> bool {
    ranks[i] > ranks[j] || (ranks[i] == ranks[j] && i < j)
}

/// Index `x` occurs in `order`.
pub open spec fn lists(order: Seq<usize>, x: int) -> bool {
    exists|k: int| 0 <= k < order.len() && order[k] as int == x
}

/// `order` lists each index below `n` exactly once, ranked by `ranks_before`.
pub open spec fn is_rank_order_upto(ranks: Seq<int>, order: Seq<usize>, n: int) -> bool {
    &&& order.len() == n
    &&& forall|k: int| 0 <= k < order.len() ==> (#[trigger] order[k] as int) < n
    &&& forall|x: int| 0 <= x < n ==> #[trigger] lists(order, x)
    &&& forall|a: int, b: int|
        0 <= a < b < order.len() ==> ranks_before(ranks, #[trigger] order[a] as int, #[trigger] order[b] as int)
}

/// `order` is the stable descending ordering of the positions of `ranks`.
pub open spec fn is_rank_order(ranks: Seq<int>, order: Seq<usize>) -> bool {
    is_rank_order_upto(ranks, order, ranks.len() as int)
}

/// Returns the positions of `ranks` ordered by descending rank, equal ranks
/// keeping their order.
pub fn rank_order(ranks: &Vec<i32>) -> (order: Vec<usize>)
    ensures
        is_rank_order(ranks@.map_values(|x: i32| x as int), order@),
{
    let ghost rs = ranks@.map_values(|x: i32| x as int);
    let mut order: Vec<usize> = Vec::new();
    let mut i: usize = 0;
    while i < ranks.len()
        invariant
            i <= ranks.len(),
            rs == ranks@.map_values(|x: i32| x as int),
            is_rank_order_upto(rs, order@, i as int),
        decreases ranks.len() - i,
    {
        let key = ranks[i];
        let mut p: usize = 0;
        while p < order.len() && ranks[order[p]] >= key
            invariant
                i < ranks.len(),
                key == ranks@[i as int],
                rs == ranks@.map_values(|x: i32| x as int),
                is_rank_order_upto(rs, order@, i as int),
                p <= order.len(),
                forall|q: int| 0 <= q < p ==> rs[#[trigger] order@[q] as int] >= rs[i as int],
            decreases order.len() - p,
        {
            assert(rs[order@[p as int] as int] == ranks@[order@[p as int] as int] as int);
            assert(rs[i as int] == key as int);
            p = p + 1;
        }
        let ghost prev = order@;
        proof {
            assert(rs[i as int] == key as int);
            if p < prev.len() {
                assert(rs[prev[p as int] as int] == ranks@[prev[p as int] as int] as int);
            }
            assert forall|q: int| p <= q < prev.len() implies rs[#[trigger] prev[q] as int] < rs[i as int] by {
                if q > p {
                    assert(ranks_before(rs, prev[p as int] as int, prev[q] as int));
                }
            }
        }
        order.insert(p, i);
        proof {
            let n = order@;
            assert(n == prev.insert(p as int, i));
            assert forall|x: int| 0 <= x < i + 1 implies #[trigger] lists(n, x) by {
                if x == i {
                    assert(n[p as int] as int == x);
                } else {
                    assert(lists(prev, x));
                    let k = choose|k: int| 0 <= k < prev.len() && prev[k] as int == x;
                    if k < p {
                        assert(n[k] as int == x);
                    } else {
                        assert(n[k + 1] as int == x);
                    }
                }
            }
            assert forall|a: int, b: int| 0 <= a < b < n.len() implies ranks_before(
                rs,
                #[trigger] n[a] as int,
                #[trigger] n[b] as int,
            ) by {
                if a < p && b < p {
                    assert(ranks_before(rs, prev[a] as int, prev[b] as int));
                } else if a < p && b == p {
                    assert(prev[a] < i);
                } else if a < p {
                    assert(ranks_before(rs, prev[a] as int, prev[b - 1] as int));
                } else if a == p {
                    assert(rs[prev[b - 1] as int] < rs[i as int]);
                } else {
                    assert(ranks_before(rs, prev[a - 1] as int, prev[b - 1] as int));
                }
            }
        }
        i = i + 1;
    }
    order
}

/// If two rank orders of `ranks` agree below `k`, they agree at `k`.
proof fn lemma_rank_order_step(ranks: Seq<int>, o1: Seq<usize>, o2: Seq<usize>, k: int)
    requires
        is_rank_order(ranks, o1),
        is_rank_order(ranks, o2),
        0 <= k < o1.len(),
        forall|j: int| 0 <= j < k ==> o1[j] == o2[j],
    ensures
        o1[k] == o2[k],
{
    let x = o1[k] as int;
    let y = o2[k] as int;
    if x != y {
        assert(lists(o2, x));
        let m = choose|m: int| 0 <= m < o2.len() && o2[m] as int == x;
        assert(lists(o1, y));
        let n = choose|n: int| 0 <= n < o1.len() && o1[n] as int == y;
        if m < k {
            assert(o1[m] == o2[m]);
            assert(ranks_before(ranks, o1[m] as int, o1[k] as int));
        }
        if n < k {
            assert(o1[n] == o2[n]);
            assert(ranks_before(ranks, o2[n] as int, o2[k] as int));
        }
        assert(ranks_before(ranks, o2[k] as int, o2[m] as int));
        assert(ranks_before(ranks, o1[k] as int, o1[n] as int));
    }
}

proof fn lemma_rank_order_prefix(ranks: Seq<int>, o1: Seq<usize>, o2: Seq<usize>, k: int)
    requires
        is_rank_order(ranks, o1),
        is_rank_order(ranks, o2),
        0 <= k <= o1.len(),
    ensures
        forall|j: int| 0 <= j < k ==> o1[j] == o2[j],
    decreases k,
{
    if k > 0 {
        lemma_rank_order_prefix(ranks, o1, o2, k - 1);
        lemma_rank_order_step(ranks, o1, o2, k - 1);
    }
}

/// There is only one rank order of given ranks.
pub proof fn lemma_rank_order_unique(ranks: Seq<int>, o1: Seq<usize>, o2: Seq<usize>)
    requires
        is_rank_order(ranks, o1),
        is_rank_order(ranks, o2),
    ensures
        o1 == o2,
{
    lemma_rank_order_prefix(ranks, o1, o2, o1.len() as int);
    assert(o1 =~= o2);
}

/// Ranks read off in a rank order are already ranked: their rank order is the identity.
pub proof fn lemma_rank_order_of_ranked(ranks: Seq<int>, order: Seq<usize>)
    requires
        is_rank_order(ranks, order),
        ranks.len() <= usize::MAX,
    ensures
        is_rank_order(
            order.map_values(|x: usize| ranks[x as int]),
            Seq::new(ranks.len(), |k: int| k as usize),
        ),
{
    let sorted = order.map_values(|x: usize| ranks[x as int]);
    let id = Seq::new(ranks.len(), |k: int| k as usize);
    assert forall|x: int| 0 <= x < ranks.len() implies #[trigger] lists(id, x) by {
        assert(id[x] as int == x);
    }
    assert forall|a: int, b: int| 0 <= a < b < id.len() implies ranks_before(
        sorted,
        #[trigger] id[a] as int,
        #[trigger] id[b] as int,
    ) by {
        assert(ranks_before(ranks, order[a] as int, order[b] as int));
    }
}

} // verus!
