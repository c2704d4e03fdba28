use crate::ordering::{float_rank, rank};
use vstd::prelude::*;
use vstd::set_lib::{lemma_int_range, lemma_subset_equality, set_int_range};

verus! {

/// Index `x` stands before index `y` in the ascending order of `keys`: its
/// key has the smaller rank, or the same rank and `x` is the smaller index.
pub open spec fn comes_before(keys: Seq<u64>, x: int, y: int) -> bool {
    rank(keys[x]) < rank(keys[y]) || (rank(keys[x]) == rank(keys[y]) && x < y)
}

/// `order` lists the indices of `keys` by ascending rank, and indices of
/// equal rank by ascending index.
pub open spec fn is_ascending_order(keys: Seq<u64>, order: Seq<usize>) -> bool {
    &&& order.len() == keys.len()
    &&& forall|k: int| 0 <= k < order.len() ==> #[trigger] order[k] < keys.len()
    &&& forall|k1: int, k2: int|
        0 <= k1 < k2 < order.len() ==> comes_before(
            keys,
            #[trigger] order[k1] as int,
            #[trigger] order[k2] as int,
        )
}

/// The indices of `keys` by ascending rank, and indices of equal rank by
/// ascending index. By `lemma_ascending_order_unique` an order that ascends
/// is this one.
pub open spec fn sorted_indices(keys: Seq<u64>) -> Seq<usize> {
    choose|order: Seq<usize>| is_ascending_order(keys, order)
}

/// An ascending order holds every index.
pub proof fn lemma_ascending_order_complete(keys: Seq<u64>, order: Seq<usize>, i: int)
    requires
        is_ascending_order(keys, order),
        0 <= i < keys.len(),
    ensures
        exists|k: int| 0 <= k < order.len() && order[k] == i,
{
    let n = keys.len() as int;
    let ints = Seq::new(order.len(), |k: int| order[k] as int);
    assert forall|k1: int, k2: int|
        0 <= k1 < ints.len() && 0 <= k2 < ints.len() && k1 != k2 implies ints[k1] != ints[k2] by {
        if k1 < k2 {
            assert(comes_before(keys, order[k1] as int, order[k2] as int));
        } else {
            assert(comes_before(keys, order[k2] as int, order[k1] as int));
        }
    }
    ints.unique_seq_to_set();
    lemma_int_range(0, n);
    assert forall|v: int| ints.to_set().contains(v) implies set_int_range(0, n).contains(v) by {
        let k = choose|k: int| 0 <= k < ints.len() && ints[k] == v;
        assert(order[k] < keys.len());
    }
    vstd::set_lib::lemma_set_subset_finite(set_int_range(0, n), ints.to_set());
    lemma_subset_equality(ints.to_set(), set_int_range(0, n));
    assert(set_int_range(0, n).contains(i));
    assert(ints.to_set().contains(i));
    let k = choose|k: int| 0 <= k < ints.len() && ints[k] == i;
    assert(0 <= k < order.len() && order[k] == i);
}

/// Two ascending orders of the same keys agree on their first `upto`
/// entries.
proof fn lemma_ascending_orders_agree(keys: Seq<u64>, o1: Seq<usize>, o2: Seq<usize>, upto: int)
    requires
        is_ascending_order(keys, o1),
        is_ascending_order(keys, o2),
        0 <= upto <= keys.len(),
    ensures
        forall|t: int| 0 <= t < upto ==> o1[t] == o2[t],
    decreases upto,
{
    if upto > 0 {
        lemma_ascending_orders_agree(keys, o1, o2, upto - 1);
        let last = upto - 1;
        let x = o1[last] as int;
        let y = o2[last] as int;
        if x != y {
            if comes_before(keys, x, y) {
                lemma_ascending_order_complete(keys, o2, x);
                let m = choose|m: int| 0 <= m < o2.len() && o2[m] == x;
                if m > last {
                    assert(comes_before(keys, o2[last] as int, o2[m] as int));
                } else {
                    assert(o1[m] == o2[m]);
                    assert(comes_before(keys, o1[m] as int, o1[last] as int));
                }
            } else {
                assert(comes_before(keys, y, x));
                lemma_ascending_order_complete(keys, o1, y);
                let m = choose|m: int| 0 <= m < o1.len() && o1[m] == y;
                if m > last {
                    assert(comes_before(keys, o1[last] as int, o1[m] as int));
                } else {
                    assert(o1[m] == o2[m]);
                    assert(comes_before(keys, o2[m] as int, o2[last] as int));
                }
            }
        }
    }
}

/// Keys have one ascending order only.
pub proof fn lemma_ascending_order_unique(keys: Seq<u64>, o1: Seq<usize>, o2: Seq<usize>)
    requires
        is_ascending_order(keys, o1),
        is_ascending_order(keys, o2),
    ensures
        o1 == o2,
{
    lemma_ascending_orders_agree(keys, o1, o2, keys.len() as int);
    assert(o1 =~= o2);
}

/// Where a new last index goes into the ascending order of the keys before
/// it: behind every entry from `from` on whose key does not rank above its
/// own.
proof fn lemma_insertion_point(keys: Seq<u64>, order: Seq<usize>, last: int, from: int) -> (at: int)
    requires
        0 <= from <= order.len(),
    ensures
        from <= at <= order.len(),
        forall|k: int| from <= k < at ==> rank(keys[#[trigger] order[k] as int]) <= rank(keys[last]),
        at < order.len() ==> rank(keys[order[at] as int]) > rank(keys[last]),
    decreases order.len() - from,
{
    if from == order.len() || rank(keys[order[from] as int]) > rank(keys[last]) {
        from
    } else {
        lemma_insertion_point(keys, order, last, from + 1)
    }
}

/// Every sequence of keys that a vector can hold has an ascending order,
/// and `sorted_indices` is it.
pub proof fn lemma_sorted_indices_ascend(keys: Seq<u64>)
    requires
        keys.len() <= usize::MAX,
    ensures
        is_ascending_order(keys, sorted_indices(keys)),
    decreases keys.len(),
{
    if keys.len() == 0 {
        assert(is_ascending_order(keys, Seq::<usize>::empty()));
    } else {
        let shorter = keys.drop_last();
        lemma_sorted_indices_ascend(shorter);
        let before = sorted_indices(shorter);
        let last = (keys.len() - 1) as int;
        let at = lemma_insertion_point(keys, before, last, 0);
        let order = before.subrange(0, at).push(last as usize) + before.subrange(
            at,
            before.len() as int,
        );
        assert forall|k: int| 0 <= k < order.len() implies #[trigger] order[k] < keys.len() by {
            if k < at {
                assert(order[k] == before[k]);
            } else if k > at {
                assert(order[k] == before[k - 1]);
            }
        }
        assert forall|k1: int, k2: int| 0 <= k1 < k2 < order.len() implies comes_before(
            keys,
            #[trigger] order[k1] as int,
            #[trigger] order[k2] as int,
        ) by {
            let s1 = if k1 < at {
                k1
            } else {
                k1 - 1
            };
            let s2 = if k2 < at {
                k2
            } else {
                k2 - 1
            };
            if k1 != at && k2 != at {
                assert(order[k1] == before[s1] && order[k2] == before[s2]);
                assert(before[s1] < shorter.len() && before[s2] < shorter.len());
                assert(comes_before(shorter, before[s1] as int, before[s2] as int));
                assert(shorter[before[s1] as int] == keys[before[s1] as int]);
                assert(shorter[before[s2] as int] == keys[before[s2] as int]);
            } else if k1 == at {
                assert(order[k2] == before[s2]);
                assert(before[s2] < shorter.len());
                if s2 > at {
                    assert(before[at] < shorter.len());
                    assert(comes_before(shorter, before[at] as int, before[s2] as int));
                    assert(shorter[before[at] as int] == keys[before[at] as int]);
                    assert(shorter[before[s2] as int] == keys[before[s2] as int]);
                }
            } else {
                assert(order[k1] == before[s1]);
                assert(before[s1] < shorter.len());
            }
        }
        assert(is_ascending_order(keys, order));
    }
}

/// The ranks of the keys, one by one.
fn key_ranks(keys: &Vec<u64>) -> (ranks: Vec<i64>)
    ensures
        ranks@.len() == keys@.len(),
        forall|k: int| 0 <= k < keys@.len() ==> #[trigger] ranks@[k] == rank(keys@[k]),
{
    let n: usize = keys.len();
    let mut ranks: Vec<i64> = Vec::new();
    let mut t: usize = 0;
    while t < n
        invariant
            n == keys@.len(),
            t <= n,
            ranks@.len() == t,
            forall|k: int| 0 <= k < t ==> #[trigger] ranks@[k] == rank(keys@[k]),
        decreases n - t,
    {
        ranks.push(float_rank(keys[t]));
        t += 1;
    }
    ranks
}

/// Sorts the indices of `keys` by ascending rank of the key, and indices of
/// equal rank by ascending index.
pub fn sort_indices(keys: &Vec<u64>) -> (order: Vec<usize>)
    ensures
        is_ascending_order(keys@, order@),
        order@ == sorted_indices(keys@),
{
    let n: usize = keys.len();
    let ranks: Vec<i64> = key_ranks(keys);
    let mut order: Vec<usize> = Vec::new();
    let mut m: usize = 0;
    while m < n
        invariant
            n == keys@.len(),
            ranks@.len() == n,
            forall|k: int| 0 <= k < n ==> #[trigger] ranks@[k] == rank(keys@[k]),
            m <= n,
            order@.len() == m,
            forall|k: int| 0 <= k < m ==> #[trigger] order@[k] < m,
            forall|k1: int, k2: int|
                0 <= k1 < k2 < m ==> comes_before(
                    keys@,
                    #[trigger] order@[k1] as int,
                    #[trigger] order@[k2] as int,
                ),
        decreases n - m,
    {
        order.push(m);
        let mut p: usize = m;
        let mut moving: bool = true;
        while moving
            invariant
                n == keys@.len(),
                ranks@.len() == n,
                forall|k: int| 0 <= k < n ==> #[trigger] ranks@[k] == rank(keys@[k]),
                m < n,
                order@.len() == m + 1,
                p <= m,
                order@[p as int] == m,
                forall|k: int| 0 <= k <= m && k != p ==> #[trigger] order@[k] < m,
                forall|k1: int, k2: int|
                    0 <= k1 < k2 <= m && k1 != p && k2 != p ==> comes_before(
                        keys@,
                        #[trigger] order@[k1] as int,
                        #[trigger] order@[k2] as int,
                    ),
                forall|k: int|
                    p < k <= m ==> rank(keys@[m as int]) < rank(keys@[#[trigger] order@[k] as int]),
                !moving ==> forall|k: int|
                    0 <= k < p ==> rank(keys@[#[trigger] order@[k] as int]) <= rank(
                        keys@[m as int],
                    ),
            decreases p + (if moving { 1int } else { 0int }),
        {
            if p == 0 {
                moving = false;
            } else {
                let prev: usize = order[p - 1];
                assert(order@[p - 1] < m);
                if ranks[prev] > ranks[m] {
                    order.set(p, prev);
                    order.set(p - 1, m);
                    p = p - 1;
                } else {
                    moving = false;
                    assert forall|k: int| 0 <= k < p implies rank(
                        keys@[#[trigger] order@[k] as int],
                    ) <= rank(keys@[m as int]) by {
                        if k < p - 1 {
                            assert(comes_before(keys@, order@[k] as int, order@[p - 1] as int));
                        }
                    }
                }
            }
        }
        m += 1;
    }
    proof {
        lemma_ascending_order_unique(keys@, order@, sorted_indices(keys@));
    }
    order
}

} // verus!
