//! Descending arrangements of ranked entries.
//!
//! A score is known to the library by its rank: `Some(k)` places it in the
//! total order of scores, `None` marks a score that is not ordered at all (a
//! value that compares neither below, above nor equal to anything).  The
//! analysis lists its scores highest first, and entries of equal rank keep
//! the order in which they were given.
use vstd::prelude::*;

verus! {

/// `a` compares strictly above `b`.
pub open spec fn outranks(a: Option<u32>, b: Option<u32>) -> bool {
    a matches Some(x) && b matches Some(y) && x > y
}

/// `a` compares at or above `b`.
pub open spec fn at_least(a: Option<u32>, b: Option<u32>) -> bool {
    a matches Some(x) && b matches Some(y) && x >= y
}

/// In the descending arrangement of `ranks`, entry `i` comes before entry `j`:
/// it has the higher rank, or the same rank and the earlier position.
pub open spec fn precedes(ranks: Seq<Option<u32>>, i: int, j: int) -> bool {
    outranks(ranks[i], ranks[j]) || (ranks[i] == ranks[j] && i < j)
}

/// Every entry that `keep` selects is ordered.
pub open spec fn kept_are_ordered(ranks: Seq<Option<u32>>, keep: Seq<bool>) -> bool {
    forall|i: int| 0 <= i < ranks.len() && #[trigger] keep[i] ==> ranks[i] is Some
}

/// `order` lists the positions of `ranks` that `keep` selects, each once,
/// highest rank first and equal ranks in their given order.
pub open spec fn is_descending_arrangement(
    ranks: Seq<Option<u32>>,
    keep: Seq<bool>,
    order: Seq<usize>,
) -> bool {
    &&& forall|k: int|
        0 <= k < order.len() ==> #[trigger] order[k] < ranks.len() && keep[order[k] as int]
    &&& forall|a: int, b: int|
        0 <= a < b < order.len() ==> precedes(ranks, #[trigger] order[a] as int, #[trigger] order[b] as int)
    &&& forall|i: int| 0 <= i < ranks.len() && #[trigger] keep[i] ==> order.contains(i as usize)
}

/// Ranks compare as numbers, and an unordered score compares with nothing.
pub proof fn lemma_rank_comparisons(a: Option<u32>, b: Option<u32>)
    ensures
        outranks(a, b) <==> (a matches Some(x) && b matches Some(y) && x > y),
        at_least(a, b) <==> (a matches Some(x) && b matches Some(y) && x >= y),
        a is None ==> !outranks(a, b) && !outranks(b, a) && !at_least(a, b) && !at_least(b, a),
{
}

/// A descending arrangement lists each kept position exactly once and no
/// other; along it the ranks never increase, and equal ranks keep their
/// given order.
pub proof fn lemma_arrangement_is_sorted_selection(
    ranks: Seq<Option<u32>>,
    keep: Seq<bool>,
    order: Seq<usize>,
)
    requires
        keep.len() == ranks.len(),
        kept_are_ordered(ranks, keep),
        is_descending_arrangement(ranks, keep, order),
    ensures
        order.no_duplicates(),
        forall|k: int| 0 <= k < order.len() ==> #[trigger] keep[order[k] as int],
        forall|i: int| 0 <= i < ranks.len() && keep[i] ==> #[trigger] order.contains(i as usize),
        forall|a: int, b: int|
            #![trigger order[a], order[b]]
            0 <= a < b < order.len() ==> (ranks[order[a] as int] matches Some(x) && ranks[order[b] as int] matches Some(y)
                && (x > y || (x == y && order[a] < order[b]))),
{
    assert forall|a: int, b: int|
        #![trigger order[a], order[b]]
        0 <= a < b < order.len() implies (ranks[order[a] as int] matches Some(x)
        && ranks[order[b] as int] matches Some(y) && (x > y || (x == y && order[a] < order[b]))) by {
        assert(precedes(ranks, order[a] as int, order[b] as int));
        assert(keep[order[a] as int] && keep[order[b] as int]);
    }
    assert forall|a: int, b: int| 0 <= a < order.len() && 0 <= b < order.len() && a != b implies order[a] != order[b] by {
        if a < b {
            assert(precedes(ranks, order[a] as int, order[b] as int));
        } else {
            assert(precedes(ranks, order[b] as int, order[a] as int));
        }
    }
}

/// Only one arrangement lists the kept entries highest rank first with
/// equal ranks in their given order, so the arrangement is determined
/// by the ranks and the selection alone.
pub proof fn lemma_descending_arrangement_unique(
    ranks: Seq<Option<u32>>,
    keep: Seq<bool>,
    first: Seq<usize>,
    second: Seq<usize>,
)
    requires
        keep.len() == ranks.len(),
        ranks.len() <= usize::MAX,
        kept_are_ordered(ranks, keep),
        is_descending_arrangement(ranks, keep, first),
        is_descending_arrangement(ranks, keep, second),
    ensures
        first == second,
    decreases first.len(),
{
    if first.len() == 0 {
        if second.len() > 0 {
            let i = second[0] as int;
            assert(keep[i]);
            assert(first.contains(i as usize));
        }
        assert(first =~= second);
    } else {
        let a = first[0];
        assert(keep[a as int]);
        assert(second.contains(a));
        let ka = choose|k: int| 0 <= k < second.len() && second[k] == a;
        let b = second[0];
        assert(keep[b as int]);
        assert(first.contains(b));
        let kb = choose|k: int| 0 <= k < first.len() && first[k] == b;
        if ka > 0 {
            assert(precedes(ranks, second[0] as int, second[ka] as int));
            if kb > 0 {
                assert(precedes(ranks, first[0] as int, first[kb] as int));
            }
        }
        assert(a == b);
        let keep2 = keep.update(a as int, false);
        let f2 = first.drop_first();
        let s2 = second.drop_first();
        assert forall|k: int| 0 <= k < f2.len() implies #[trigger] f2[k] < ranks.len() && keep2[
            f2[k] as int
        ] by {
            assert(f2[k] == first[k + 1]);
            assert(precedes(ranks, first[0] as int, first[k + 1] as int));
        }
        assert forall|k: int| 0 <= k < s2.len() implies #[trigger] s2[k] < ranks.len() && keep2[
            s2[k] as int
        ] by {
            assert(s2[k] == second[k + 1]);
            assert(precedes(ranks, second[0] as int, second[k + 1] as int));
        }
        assert forall|x: int, y: int| 0 <= x < y < f2.len() implies precedes(
            ranks,
            #[trigger] f2[x] as int,
            #[trigger] f2[y] as int,
        ) by {
            assert(f2[x] == first[x + 1] && f2[y] == first[y + 1]);
        }
        assert forall|x: int, y: int| 0 <= x < y < s2.len() implies precedes(
            ranks,
            #[trigger] s2[x] as int,
            #[trigger] s2[y] as int,
        ) by {
            assert(s2[x] == second[x + 1] && s2[y] == second[y + 1]);
        }
        assert forall|i: int| 0 <= i < ranks.len() && #[trigger] keep2[i] implies f2.contains(
            i as usize,
        ) by {
            assert(keep2[i] == (keep[i] && i != a as int));
            assert(keep[i]);
            assert(first.contains(i as usize));
            let k = choose|k: int| 0 <= k < first.len() && first[k] == i as usize;
            assert(0 <= k < first.len() && first[k] == i as usize);
            if k == 0 {
                assert(i == a as int);
            }
            assert(f2[k - 1] == i as usize);
        }
        assert forall|i: int| 0 <= i < ranks.len() && #[trigger] keep2[i] implies s2.contains(
            i as usize,
        ) by {
            assert(keep2[i] == (keep[i] && i != a as int));
            assert(keep[i]);
            assert(second.contains(i as usize));
            let k = choose|k: int| 0 <= k < second.len() && second[k] == i as usize;
            assert(0 <= k < second.len() && second[k] == i as usize);
            if k == 0 {
                assert(i == b as int);
            }
            assert(s2[k - 1] == i as usize);
        }
        assert(kept_are_ordered(ranks, keep2));
        lemma_descending_arrangement_unique(ranks, keep2, f2, s2);
        assert(first =~= seq![a] + f2);
        assert(second =~= seq![b] + s2);
    }
}

/// Lists the positions that `keep` selects, highest rank first, equal ranks
/// in their given order (a stable descending sort of the kept entries).
pub fn descending_arrangement(ranks: &Vec<Option<u32>>, keep: &Vec<bool>) -> (order: Vec<usize>)
    requires
        keep.len() == ranks.len(),
        ranks.len() < 2 || kept_are_ordered(ranks@, keep@),
    ensures
        is_descending_arrangement(ranks@, keep@, order@),
{
    let n = ranks.len();
    let mut order: Vec<usize> = Vec::new();
    let mut i: usize = 0;
    while i < n
        invariant
            n == ranks.len(),
            keep.len() == n,
            n < 2 || kept_are_ordered(ranks@, keep@),
            0 <= i <= n,
            forall|k: int|
                0 <= k < order.len() ==> #[trigger] order@[k] < i && keep@[order@[k] as int],
            forall|a: int, b: int|
                0 <= a < b < order.len() ==> precedes(
                    ranks@,
                    #[trigger] order@[a] as int,
                    #[trigger] order@[b] as int,
                ),
            forall|j: int| 0 <= j < i && #[trigger] keep@[j] ==> order@.contains(j as usize),
        decreases n - i,
    {
        if keep[i] {
            let mut p: usize = 0;
            let mut placed = false;
            while p < order.len() && !placed
                invariant
                    n == ranks.len(),
                    keep.len() == n,
                    n < 2 || kept_are_ordered(ranks@, keep@),
                    i < n,
                    keep@[i as int],
                    0 <= p <= order.len(),
                    forall|k: int|
                        0 <= k < order.len() ==> #[trigger] order@[k] < i && keep@[order@[k] as int],
                    forall|a: int, b: int|
                        0 <= a < b < order.len() ==> precedes(
                            ranks@,
                            #[trigger] order@[a] as int,
                            #[trigger] order@[b] as int,
                        ),
                    forall|k: int| 0 <= k < p ==> precedes(ranks@, #[trigger] order@[k] as int, i as int),
                    placed ==> p < order.len() && outranks(ranks@[i as int], ranks@[order@[p as int] as int]),
                decreases 2 * (order.len() - p) + (if placed { 0int } else { 1int }),
            {
                let q = order[p];
                assert(keep@[q as int]);
                assert(n >= 2);
                let above = match (ranks[i], ranks[q]) {
                    (Some(x), Some(y)) => x > y,
                    _ => false,
                };
                if above {
                    placed = true;
                } else {
                    p = p + 1;
                }
            }
            proof {
                if placed {
                    assert forall|k: int| p <= k < order.len() implies precedes(
                        ranks@,
                        i as int,
                        #[trigger] order@[k] as int,
                    ) by {
                        if k > p {
                            assert(precedes(ranks@, order@[p as int] as int, order@[k] as int));
                        }
                    }
                }
            }
            let ghost old_order = order@;
            order.insert(p, i);
            proof {
                old_order.insert_ensures(p as int, i);
                assert forall|a: int, b: int| 0 <= a < b < order.len() implies precedes(
                    ranks@,
                    #[trigger] order@[a] as int,
                    #[trigger] order@[b] as int,
                ) by {
                    if b < p {
                    } else if b == p {
                        assert(order@[a] == old_order[a]);
                    } else if a < p {
                        assert(order@[b] == old_order[b - 1]);
                        assert(precedes(ranks@, old_order[a] as int, i as int));
                    } else if a == p {
                        assert(order@[b] == old_order[b - 1]);
                    } else {
                        assert(order@[a] == old_order[a - 1]);
                        assert(order@[b] == old_order[b - 1]);
                        assert(precedes(ranks@, old_order[a - 1] as int, old_order[b - 1] as int));
                    }
                }
                assert forall|k: int| 0 <= k < order.len() implies #[trigger] order@[k] < i + 1
                    && keep@[order@[k] as int] by {
                    if k < p {
                        assert(order@[k] == old_order[k]);
                    } else if k > p {
                        assert(order@[k] == old_order[k - 1]);
                    }
                }
                assert forall|j: int| 0 <= j < i + 1 && #[trigger] keep@[j] implies order@.contains(
                    j as usize,
                ) by {
                    if j == i {
                        assert(order@[p as int] == i);
                    } else {
                        assert(old_order.contains(j as usize));
                        let k = choose|k: int| 0 <= k < old_order.len() && old_order[k] == j as usize;
                        if k < p {
                            assert(order@[k] == old_order[k]);
                        } else {
                            assert(order@[k + 1] == old_order[k]);
                        }
                    }
                }
            }
        }
        i = i + 1;
    }
    order
}

} // verus!
