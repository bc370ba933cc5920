//! Ordinals, and stable orders over them.

use vstd::prelude::*;

verus! {

/// Stands for a measurement of which only the order counts. Two ordinals
/// compare as the measurements they were made from: `a < b` exactly if the
/// first measurement is less than the second, `a == b` exactly if they are
/// equal. Ordinals are never added or scaled.
pub type Ordinal = i32;

/// Each of `0..n` occurs exactly once in `order`.
pub open spec fn is_permutation(order: Seq<usize>, n: nat) -> bool {
    &&& order.len() == n
    &&& forall|p: int| 0 <= p < order.len() ==> (#[trigger] order[p]) < n
    &&& order.no_duplicates()
}

/// Position `a` comes before position `b` when positions are put in ascending
/// order of their keys, equal keys keeping the order of their positions.
pub open spec fn comes_before(keys: Seq<i64>, a: int, b: int) -> bool {
    keys[a] < keys[b] || (keys[a] == keys[b] && a < b)
}

/// `order` lists the positions of `keys` by ascending key; positions with
/// equal keys keep their order.
pub open spec fn is_stable_order(order: Seq<usize>, keys: Seq<i64>) -> bool {
    &&& is_permutation(order, keys.len())
    &&& forall|p: int, q: int|
        0 <= p < q < order.len() ==> comes_before(keys, #[trigger] order[p] as int, #[trigger] order[q] as int)
}

/// The stable ascending order of `keys`; there is only one.
pub open spec fn sorted_positions(keys: Seq<i64>) -> Seq<usize> {
    choose|order: Seq<usize>| is_stable_order(order, keys)
}

/// The keys under which ascending order is ascending order of `ordinals`.
pub open spec fn rising(ordinals: Seq<Ordinal>) -> Seq<i64> {
    ordinals.map_values(|o: Ordinal| o as i64)
}

/// The keys under which ascending order is descending order of `ordinals`.
pub open spec fn falling(ordinals: Seq<Ordinal>) -> Seq<i64> {
    ordinals.map_values(|o: Ordinal| -(o as i64) as i64)
}

/// One key for two ordinals: the first decides, the second breaks ties.
pub open spec fn paired_key(major: Ordinal, minor: Ordinal) -> i64 {
    (major * 0x1_0000_0000 + (minor - i32::MIN)) as i64
}

/// `s` holds positions of `lo..hi`, each before the next.
spec fn sorted_within(keys: Seq<i64>, s: Seq<usize>, lo: int, hi: int) -> bool {
    &&& forall|p: int| 0 <= p < s.len() ==> lo <= #[trigger] s[p] < hi
    &&& forall|p: int, q: int|
        0 <= p < q < s.len() ==> comes_before(keys, #[trigger] s[p] as int, #[trigger] s[q] as int)
}

fn merge(keys: &Vec<i64>, left: &Vec<usize>, right: &Vec<usize>, Ghost(lo): Ghost<int>, Ghost(mid): Ghost<int>, Ghost(hi): Ghost<int>) -> (out: Vec<usize>)
    requires
        0 <= lo <= mid <= hi <= keys.len(),
        sorted_within(keys@, left@, lo, mid),
        sorted_within(keys@, right@, mid, hi),
        left.len() + right.len() <= usize::MAX,
    ensures
        sorted_within(keys@, out@, lo, hi),
        out.len() == left.len() + right.len(),
{
    let mut out: Vec<usize> = Vec::new();
    let mut i: usize = 0;
    let mut j: usize = 0;
    while i < left.len() || j < right.len()
        invariant
            0 <= lo <= mid <= hi <= keys.len(),
            sorted_within(keys@, left@, lo, mid),
            sorted_within(keys@, right@, mid, hi),
            left.len() + right.len() <= usize::MAX,
            i <= left.len(),
            j <= right.len(),
            out.len() == i + j,
            sorted_within(keys@, out@, lo, hi),
            forall|p: int, q: int|
                0 <= p < out.len() && i <= q < left.len() ==> comes_before(keys@, #[trigger] out[p] as int, #[trigger] left[q] as int),
            forall|p: int, q: int|
                0 <= p < out.len() && j <= q < right.len() ==> comes_before(keys@, #[trigger] out[p] as int, #[trigger] right[q] as int),
        decreases left.len() - i + right.len() - j,
    {
        let from_left = j >= right.len() || (i < left.len() && keys[left[i]] <= keys[right[j]]);
        if from_left {
            let x = left[i];
            assert(forall|q: int| j <= q < right.len() ==> comes_before(keys@, x as int, #[trigger] right[q] as int)) by {
                if j < right.len() {
                    assert(comes_before(keys@, x as int, right[j as int] as int));
                }
            }
            out.push(x);
            i = i + 1;
        } else {
            let x = right[j];
            assert(forall|q: int| i <= q < left.len() ==> comes_before(keys@, x as int, #[trigger] left[q] as int)) by {
                if i < left.len() {
                    assert(comes_before(keys@, x as int, left[i as int] as int));
                }
            }
            out.push(x);
            j = j + 1;
        }
    }
    out
}

fn sort_range(keys: &Vec<i64>, lo: usize, hi: usize) -> (out: Vec<usize>)
    requires
        lo <= hi <= keys.len(),
    ensures
        sorted_within(keys@, out@, lo as int, hi as int),
        out.len() == hi - lo,
    decreases hi - lo,
{
    if hi - lo == 0 {
        return Vec::new();
    }
    if hi - lo == 1 {
        let mut one: Vec<usize> = Vec::new();
        one.push(lo);
        return one;
    }
    let mid: usize = lo + (hi - lo) / 2;
    let left = sort_range(keys, lo, mid);
    let right = sort_range(keys, mid, hi);
    merge(keys, &left, &right, Ghost(lo as int), Ghost(mid as int), Ghost(hi as int))
}

/// The stable ascending order of `keys`.
pub fn stable_order(keys: &Vec<i64>) -> (order: Vec<usize>)
    ensures
        is_stable_order(order@, keys@),
        order@ == sorted_positions(keys@),
{
    let order = sort_range(keys, 0, keys.len());
    proof {
        assert(is_stable_order(order@, keys@));
        law_stable_order_is_unique(order@, sorted_positions(keys@), keys@);
    }
    order
}

/// The stable ascending order of `ordinals`.
pub fn order_rising(ordinals: &Vec<Ordinal>) -> (order: Vec<usize>)
    ensures
        is_stable_order(order@, rising(ordinals@)),
        order@ == sorted_positions(rising(ordinals@)),
{
    let mut keys: Vec<i64> = Vec::new();
    let mut k: usize = 0;
    while k < ordinals.len()
        invariant
            k <= ordinals.len(),
            keys@ == rising(ordinals@).take(k as int),
        decreases ordinals.len() - k,
    {
        keys.push(ordinals[k] as i64);
        k = k + 1;
    }
    assert(keys@ =~= rising(ordinals@));
    stable_order(&keys)
}

/// The stable descending order of `ordinals`.
pub fn order_falling(ordinals: &Vec<Ordinal>) -> (order: Vec<usize>)
    ensures
        is_stable_order(order@, falling(ordinals@)),
        order@ == sorted_positions(falling(ordinals@)),
{
    let mut keys: Vec<i64> = Vec::new();
    let mut k: usize = 0;
    while k < ordinals.len()
        invariant
            k <= ordinals.len(),
            keys@ == falling(ordinals@).take(k as int),
        decreases ordinals.len() - k,
    {
        keys.push(-(ordinals[k] as i64));
        k = k + 1;
    }
    assert(keys@ =~= falling(ordinals@));
    stable_order(&keys)
}

/// The key that orders by `major` first and by `minor` among equals.
pub fn pair_key(major: Ordinal, minor: Ordinal) -> (key: i64)
    ensures
        key == paired_key(major, minor),
{
    (major as i64) * 0x1_0000_0000 + (minor as i64 - i32::MIN as i64)
}

/// Paired keys compare as the pairs do, the first ordinal first.
pub proof fn law_paired_keys_order_pairs(a: Ordinal, b: Ordinal, c: Ordinal, d: Ordinal)
    ensures
        paired_key(a, b) < paired_key(c, d) <==> (a < c || (a == c && b < d)),
        paired_key(a, b) == paired_key(c, d) <==> (a == c && b == d),
{
}

/// Every position below `n` occurs in a permutation of `0..n`.
pub proof fn law_permutation_covers(order: Seq<usize>, n: nat, x: int)
    requires
        is_permutation(order, n),
        0 <= x < n,
    ensures
        exists|p: int| 0 <= p < order.len() && #[trigger] order[p] == x,
{
    let ints = order.map_values(|u: usize| u as int);
    assert(ints.no_duplicates()) by {
        assert forall|i: int, j: int| 0 <= i < ints.len() && 0 <= j < ints.len() && i != j implies ints[i] != ints[j] by {
            assert(order[i] != order[j]);
        }
    }
    ints.unique_seq_to_set();
    let all = vstd::set_lib::set_int_range(0, n as int);
    vstd::set_lib::lemma_int_range(0, n as int);
    assert(ints.to_set().subset_of(all)) by {
        assert forall|y: int| ints.to_set().contains(y) implies all.contains(y) by {
            let p = choose|p: int| 0 <= p < ints.len() && ints[p] == y;
            assert(order[p] < n);
        }
    }
    vstd::set_lib::lemma_subset_equality(ints.to_set(), all);
    assert(ints.to_set().contains(x));
    let p = choose|p: int| 0 <= p < ints.len() && ints[p] == x;
    assert(order[p] == x);
}

/// Two stable orders of the same keys are the same order.
pub proof fn law_stable_order_is_unique(a: Seq<usize>, b: Seq<usize>, keys: Seq<i64>)
    requires
        is_stable_order(a, keys),
        is_stable_order(b, keys),
    ensures
        a == b,
{
    assert forall|p: int| 0 <= p < a.len() implies a[p] == b[p] by {
        lemma_same_prefix(a, b, keys, p + 1);
        assert(a.take(p + 1)[p] == b.take(p + 1)[p]);
    }
    assert(a =~= b);
}

proof fn lemma_same_prefix(a: Seq<usize>, b: Seq<usize>, keys: Seq<i64>, k: int)
    requires
        is_stable_order(a, keys),
        is_stable_order(b, keys),
        0 <= k <= a.len(),
    ensures
        a.take(k) == b.take(k),
    decreases k,
{
    if k > 0 {
        lemma_same_prefix(a, b, keys, k - 1);
        let x = a[k - 1] as int;
        let y = b[k - 1] as int;
        if x != y {
            law_permutation_covers(b, keys.len(), x);
            law_permutation_covers(a, keys.len(), y);
            let p = choose|p: int| 0 <= p < b.len() && b[p] == x;
            let q = choose|q: int| 0 <= q < a.len() && a[q] == y;
            if p < k - 1 {
                assert(a.take(k - 1)[p] == b.take(k - 1)[p]);
                assert(a[p] == a[k - 1]);
            }
            if q < k - 1 {
                assert(a.take(k - 1)[q] == b.take(k - 1)[q]);
                assert(b[q] == b[k - 1]);
            }
            assert(p > k - 1 && q > k - 1);
            assert(comes_before(keys, b[k - 1] as int, b[p] as int));
            assert(comes_before(keys, a[k - 1] as int, a[q] as int));
        }
        assert(a.take(k) =~= a.take(k - 1).push(a[k - 1]));
        assert(b.take(k) =~= b.take(k - 1).push(b[k - 1]));
    } else {
        assert(a.take(0) =~= b.take(0));
    }
}

/// The position in `order` at which a new last key belongs.
spec fn splits_at(order: Seq<usize>, keys: Seq<i64>, key: i64, at: int) -> bool {
    &&& 0 <= at <= order.len()
    &&& forall|q: int| 0 <= q < at ==> keys[#[trigger] order[q] as int] <= key
    &&& forall|q: int| at <= q < order.len() ==> keys[#[trigger] order[q] as int] > key
}

proof fn lemma_split_exists(order: Seq<usize>, keys: Seq<i64>, key: i64, from: int)
    requires
        is_stable_order(order, keys),
        0 <= from <= order.len(),
        forall|q: int| from <= q < order.len() ==> keys[#[trigger] order[q] as int] > key,
    ensures
        exists|at: int| splits_at(order, keys, key, at),
    decreases from,
{
    if from == 0 {
        assert(splits_at(order, keys, key, 0));
    } else if keys[order[from - 1] as int] > key {
        lemma_split_exists(order, keys, key, from - 1);
    } else {
        assert forall|q: int| 0 <= q < from implies keys[#[trigger] order[q] as int] <= key by {
            if q < from - 1 {
                assert(comes_before(keys, order[q] as int, order[from - 1] as int));
            }
        }
        assert(splits_at(order, keys, key, from));
    }
}

/// Every sequence of keys has a stable ascending order.
pub proof fn law_stable_order_exists(keys: Seq<i64>)
    requires
        keys.len() <= usize::MAX,
    ensures
        is_stable_order(sorted_positions(keys), keys),
    decreases keys.len(),
{
    if keys.len() == 0 {
        assert(is_stable_order(Seq::<usize>::empty(), keys));
    } else {
        let before = keys.drop_last();
        law_stable_order_exists(before);
        let order = sorted_positions(before);
        let key = keys.last();
        let x = (keys.len() - 1) as usize;
        lemma_split_exists(order, before, key, order.len() as int);
        let at = choose|at: int| splits_at(order, before, key, at);
        let longer = order.insert(at, x);
        assert(is_stable_order(longer, keys)) by {
            let source = |p: int| if p < at { p } else { p - 1 };
            assert forall|p: int| 0 <= p < longer.len() implies (#[trigger] longer[p]) < keys.len() by {
                if p != at {
                    assert(longer[p] == order[source(p)]);
                }
            }
            assert forall|p: int, q: int| 0 <= p < q < longer.len() implies comes_before(
                keys,
                #[trigger] longer[p] as int,
                #[trigger] longer[q] as int,
            ) by {
                if p != at {
                    assert(longer[p] == order[source(p)]);
                    assert(before[order[source(p)] as int] == keys[longer[p] as int]);
                }
                if q != at {
                    assert(longer[q] == order[source(q)]);
                    assert(before[order[source(q)] as int] == keys[longer[q] as int]);
                }
                if p != at && q != at {
                    assert(comes_before(before, order[source(p)] as int, order[source(q)] as int));
                }
            }
            assert forall|p: int, q: int| 0 <= p < longer.len() && 0 <= q < longer.len() && p != q implies longer[p] != longer[q] by {
                if p < q {
                    assert(comes_before(keys, longer[p] as int, longer[q] as int));
                } else {
                    assert(comes_before(keys, longer[q] as int, longer[p] as int));
                }
            }
        }
    }
}

/// In the order by rising ordinals none comes behind a larger one, in the order by
/// falling ordinals none behind a smaller one, and in both equal ones stay in the
/// order in which they were given.
pub proof fn law_orders_rise_and_fall(ordinals: Seq<Ordinal>, p: int, q: int)
    requires
        0 <= p < q < ordinals.len(),
        ordinals.len() <= usize::MAX,
    ensures
        ({
            let up = sorted_positions(rising(ordinals));
            let down = sorted_positions(falling(ordinals));
            &&& up.len() == ordinals.len() && up[p] < ordinals.len() && up[q] < ordinals.len()
            &&& ordinals[up[p] as int] < ordinals[up[q] as int] || ordinals[up[p] as int] == ordinals[up[q] as int] && up[p]
                < up[q]
            &&& down.len() == ordinals.len() && down[p] < ordinals.len() && down[q] < ordinals.len()
            &&& ordinals[down[p] as int] > ordinals[down[q] as int] || ordinals[down[p] as int] == ordinals[down[q] as int]
                && down[p] < down[q]
        }),
{
    law_stable_order_exists(rising(ordinals));
    law_stable_order_exists(falling(ordinals));
    let up = sorted_positions(rising(ordinals));
    let down = sorted_positions(falling(ordinals));
    assert(is_stable_order(up, rising(ordinals)));
    assert(is_stable_order(down, falling(ordinals)));
    assert(comes_before(rising(ordinals), up[p] as int, up[q] as int));
    assert(comes_before(falling(ordinals), down[p] as int, down[q] as int));
}

} // verus!
