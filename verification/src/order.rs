use vstd::prelude::*;

verus! {

/// The key by which task lists are ordered: a priority rank (0 is most
/// urgent), then a creation time as seconds and nanoseconds.
#[derive(Debug, Clone, Copy, PartialEq, Eq, Structural)]
pub struct SortKey {
    pub rank: u8,
    pub secs: i64,
    pub nanos: u32,
}

/// `a` sorts strictly before `b`: lexicographic order on (rank, secs, nanos).
pub open spec fn key_lt(a: SortKey, b: SortKey) -> bool {
    ||| a.rank < b.rank
    ||| (a.rank == b.rank && a.secs < b.secs)
    ||| (a.rank == b.rank && a.secs == b.secs && a.nanos < b.nanos)
}

/// Position `x` comes before position `y` in a stable sort by `keys`: a
/// smaller key first, and for equal keys the earlier position first.
pub open spec fn stable_before(keys: Seq<SortKey>, x: int, y: int) -> bool {
    key_lt(keys[x], keys[y]) || (keys[x] == keys[y] && x < y)
}

/// `order` lists every position of `keys` exactly once, in the order that a
/// stable sort by key puts them.
pub open spec fn is_stable_order(keys: Seq<SortKey>, order: Seq<usize>) -> bool {
    &&& order.len() == keys.len()
    &&& forall|i: int| 0 <= i < order.len() ==> #[trigger] order[i] < keys.len()
    &&& forall|x: int| 0 <= x < keys.len() ==> #[trigger] order.contains(x as usize)
    &&& forall|i: int, j: int|
        0 <= i < j < order.len() ==> stable_before(keys, order[i] as int, order[j] as int)
}

/// `new` is `old` rearranged by a stable sort on `keys` (one key per element of `old`).
pub open spec fn stably_sorted<T>(old: Seq<T>, keys: Seq<SortKey>, new: Seq<T>) -> bool {
    exists|order: Seq<usize>|
        is_stable_order(keys, order) && new.len() == old.len() && forall|k: int|
            0 <= k < new.len() ==> #[trigger] new[k] == old[order[k] as int]
}

/// Whether key `a` sorts strictly before key `b`.
pub fn key_less(a: &SortKey, b: &SortKey) -> (r: bool)
    ensures
        r == key_lt(*a, *b),
{
    a.rank < b.rank || (a.rank == b.rank && a.secs < b.secs) || (a.rank == b.rank && a.secs
        == b.secs && a.nanos < b.nanos)
}

/// The positions of `keys` in stable-sorted order (insertion sort).
pub fn stable_order(keys: &Vec<SortKey>) -> (order: Vec<usize>)
    ensures
        is_stable_order(keys@, order@),
{
    let n = keys.len();
    let mut order: Vec<usize> = Vec::new();
    for i in 0..n
        invariant
            n == keys@.len(),
            order@.len() == i,
            forall|k: int| 0 <= k < order@.len() ==> #[trigger] order@[k] < i,
            forall|x: int| 0 <= x < i ==> #[trigger] order@.contains(x as usize),
            forall|a: int, b: int|
                0 <= a < b < order@.len() ==> stable_before(
                    keys@,
                    order@[a] as int,
                    order@[b] as int,
                ),
    {
        let mut p: usize = 0;
        while p < order.len() && !key_less(&keys[i], &keys[order[p]])
            invariant
                n == keys@.len(),
                i < n,
                order@.len() == i,
                p <= order@.len(),
                forall|k: int| 0 <= k < order@.len() ==> #[trigger] order@[k] < i,
                forall|k: int| 0 <= k < p ==> !key_lt(keys@[i as int], keys@[#[trigger] order@[k] as int]),
            decreases order@.len() - p,
        {
            p = p + 1;
        }
        let ghost old_order = order@;
        order.insert(p, i);
        assert forall|k: int| p < k < order@.len() implies key_lt(keys@[i as int], keys@[#[trigger] order@[k] as int]) by {
            assert(order@[k] == old_order[k - 1]);
            assert(key_lt(keys@[i as int], keys@[old_order[p as int] as int]));
            if k - 1 > p {
                assert(stable_before(keys@, old_order[p as int] as int, old_order[k - 1] as int));
            }
        }
        assert forall|x: int| 0 <= x < i + 1 implies #[trigger] order@.contains(x as usize) by {
            if x == i {
                assert(order@[p as int] == i);
            } else {
                assert(old_order.contains(x as usize));
                let k = choose|k: int| 0 <= k < old_order.len() && old_order[k] == x as usize;
                if k < p {
                    assert(order@[k] == x as usize);
                } else {
                    assert(order@[k + 1] == x as usize);
                }
            }
        }
        assert forall|a: int, b: int| 0 <= a < b < order@.len() implies stable_before(
            keys@,
            order@[a] as int,
            order@[b] as int,
        ) by {
            if a < p && b < p {
                assert(order@[a] == old_order[a] && order@[b] == old_order[b]);
            } else if a < p && b == p {
                assert(order@[a] == old_order[a]);
            } else if a < p {
                assert(order@[a] == old_order[a] && order@[b] == old_order[b - 1]);
            } else if a == p {
            } else {
                assert(order@[a] == old_order[a - 1] && order@[b] == old_order[b - 1]);
            }
        }
    }
    order
}

/// The key of each item, where `keys` gives the key of every node.
pub open spec fn batch_keys(items: Seq<usize>, keys: Seq<SortKey>) -> Seq<SortKey> {
    items.map_values(|x: usize| keys[x as int])
}

/// A stable sort only rearranges: the result holds exactly what the input
/// holds, and nothing twice when the input holds nothing twice.
pub proof fn lemma_stably_sorted_perm<T>(old: Seq<T>, keys: Seq<SortKey>, new: Seq<T>)
    requires
        stably_sorted(old, keys, new),
        keys.len() == old.len(),
        old.len() <= usize::MAX,
    ensures
        new.len() == old.len(),
        forall|x: T| new.contains(x) <==> old.contains(x),
        old.no_duplicates() ==> new.no_duplicates(),
{
    let order = choose|order: Seq<usize>|
        is_stable_order(keys, order) && new.len() == old.len() && forall|k: int|
            0 <= k < new.len() ==> #[trigger] new[k] == old[order[k] as int];
    assert forall|i: int, j: int| 0 <= i < order.len() && 0 <= j < order.len() && i != j implies order[i] != order[j] by {
        if i < j {
            assert(stable_before(keys, order[i] as int, order[j] as int));
        } else {
            assert(stable_before(keys, order[j] as int, order[i] as int));
        }
    }
    assert forall|x: T| new.contains(x) <==> old.contains(x) by {
        if new.contains(x) {
            let k = choose|k: int| 0 <= k < new.len() && new[k] == x;
            assert(old[order[k] as int] == x);
        }
        if old.contains(x) {
            let p = choose|p: int| 0 <= p < old.len() && old[p] == x;
            assert(order.contains(p as usize));
            let k = choose|k: int| 0 <= k < order.len() && order[k] == p as usize;
            assert(new[k] == x);
        }
    }
    if old.no_duplicates() {
        assert forall|i: int, j: int| 0 <= i < new.len() && 0 <= j < new.len() && i != j implies new[i] != new[j] by {
            assert(new[i] == old[order[i] as int]);
            assert(new[j] == old[order[j] as int]);
        }
    }
}

/// The items stably sorted by their keys.
pub fn sort_batch(items: &Vec<usize>, keys: &Vec<SortKey>) -> (r: Vec<usize>)
    requires
        forall|i: int| 0 <= i < items@.len() ==> #[trigger] items@[i] < keys@.len(),
    ensures
        stably_sorted(items@, batch_keys(items@, keys@), r@),
{
    let mut bk: Vec<SortKey> = Vec::new();
    for i in 0..items.len()
        invariant
            forall|i: int| 0 <= i < items@.len() ==> #[trigger] items@[i] < keys@.len(),
            bk@ == batch_keys(items@, keys@).take(i as int),
    {
        bk.push(keys[items[i]]);
        assert(bk@ =~= batch_keys(items@, keys@).take(i + 1));
    }
    assert(bk@ =~= batch_keys(items@, keys@));
    let order = stable_order(&bk);
    let mut r: Vec<usize> = Vec::new();
    for k in 0..order.len()
        invariant
            is_stable_order(bk@, order@),
            bk@.len() == items@.len(),
            r@.len() == k,
            forall|j: int| 0 <= j < k ==> #[trigger] r@[j] == items@[order@[j] as int],
    {
        r.push(items[order[k]]);
    }
    r
}

/// A list of `n` distinct positions below `n` holds every position below `n`.
pub proof fn lemma_perm_covers(order: Seq<usize>, n: int)
    requires
        order.len() == n,
        forall|i: int| 0 <= i < order.len() ==> #[trigger] order[i] < n,
        forall|i: int, j: int| 0 <= i < j < order.len() ==> order[i] != order[j],
    ensures
        forall|x: int| 0 <= x < n ==> #[trigger] order.contains(x as usize),
{
    let oi = order.map_values(|u: usize| u as int);
    assert forall|i: int, j: int| 0 <= i < oi.len() && 0 <= j < oi.len() && i != j implies oi[i] != oi[j] by {
        if i < j {
            assert(order[i] != order[j]);
        } else {
            assert(order[j] != order[i]);
        }
    }
    oi.unique_seq_to_set();
    vstd::set_lib::lemma_int_range(0, n);
    let r = vstd::set_lib::set_int_range(0, n);
    assert forall|y: int| oi.to_set().contains(y) implies r.contains(y) by {
        assert(oi.contains(y));
        let k = choose|k: int| 0 <= k < oi.len() && oi[k] == y;
        assert(order[k] < n);
    }
    assert forall|x: int| 0 <= x < n implies #[trigger] order.contains(x as usize) by {
        if !oi.to_set().contains(x) {
            assert(oi.to_set().subset_of(r.remove(x)));
            vstd::set_lib::lemma_len_subset(oi.to_set(), r.remove(x));
        }
        assert(oi.contains(x));
        let k = choose|k: int| 0 <= k < oi.len() && oi[k] == x;
        assert(order[k] == x as usize);
    }
}


/// There is only one stable order of a list of keys.
pub proof fn lemma_stable_order_unique(keys: Seq<SortKey>, a: Seq<usize>, b: Seq<usize>)
    requires
        is_stable_order(keys, a),
        is_stable_order(keys, b),
    ensures
        a == b,
{
    assert forall|i: int| 0 <= i < a.len() implies a[i] == b[i] by {
        lemma_stable_order_prefix(keys, a, b, i);
    }
    assert(a =~= b);
}

/// Two stable orders agree on every position (by induction on it).
proof fn lemma_stable_order_prefix(keys: Seq<SortKey>, a: Seq<usize>, b: Seq<usize>, i: int)
    requires
        is_stable_order(keys, a),
        is_stable_order(keys, b),
        0 <= i < a.len(),
    ensures
        a[i] == b[i],
    decreases i,
{
    if i > 0 {
        lemma_stable_order_prefix(keys, a, b, i - 1);
    }
    assert forall|q: int| 0 <= q < i implies a[q] == b[q] by {
        lemma_stable_order_prefix(keys, a, b, q);
    }
    let x = a[i];
    let y = b[i];
    if x != y {
        assert(a[i] < keys.len());
        assert(b.contains((x as int) as usize));
        let k = choose|k: int| 0 <= k < b.len() && b[k] == x;
        assert(b[i] < keys.len());
        assert(a.contains((y as int) as usize));
        let j = choose|j: int| 0 <= j < a.len() && a[j] == y;
        if k < i {
            assert(a[k] == x);
            assert(stable_before(keys, a[k] as int, a[i] as int));
        }
        if j < i {
            assert(b[j] == y);
            assert(stable_before(keys, b[j] as int, b[i] as int));
        }
        assert(k > i && j > i);
        assert(stable_before(keys, x as int, y as int));
        assert(stable_before(keys, y as int, x as int));
    }
}

/// There is only one stable sort of a list by given keys.
pub proof fn lemma_stably_sorted_unique<T>(old: Seq<T>, keys: Seq<SortKey>, a: Seq<T>, b: Seq<T>)
    requires
        stably_sorted(old, keys, a),
        stably_sorted(old, keys, b),
    ensures
        a == b,
{
    let oa = choose|order: Seq<usize>|
        is_stable_order(keys, order) && a.len() == old.len() && forall|k: int|
            0 <= k < a.len() ==> #[trigger] a[k] == old[order[k] as int];
    let ob = choose|order: Seq<usize>|
        is_stable_order(keys, order) && b.len() == old.len() && forall|k: int|
            0 <= k < b.len() ==> #[trigger] b[k] == old[order[k] as int];
    lemma_stable_order_unique(keys, oa, ob);
    assert forall|k: int| 0 <= k < a.len() implies a[k] == b[k] by {
        assert(a[k] == old[oa[k] as int]);
        assert(b[k] == old[ob[k] as int]);
    }
    assert(a =~= b);
}

} // verus!
