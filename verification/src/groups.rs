//! Groups of boxes: gathering classes, cutting groups into lines.

use vstd::prelude::*;

use crate::disjoint;
use crate::disjoint::DisjointSet;
use crate::judge;
use crate::ordering;
use crate::ordering::Ordinal;

verus! {

/// The groups as sequences.
pub open spec fn contents(groups: Seq<Vec<usize>>) -> Seq<Seq<usize>> {
    Seq::new(groups.len(), |p: int| groups[p]@)
}

/// How often `x` occurs in `s`.
pub open spec fn occurrences(s: Seq<usize>, x: usize) -> nat
    decreases s.len(),
{
    if s.len() == 0 {
        0
    } else {
        occurrences(s.drop_last(), x) + (if s.last() == x { 1nat } else { 0 })
    }
}

/// How often `x` occurs in all the groups together.
pub open spec fn total(groups: Seq<Seq<usize>>, x: usize) -> nat
    decreases groups.len(),
{
    if groups.len() == 0 {
        0
    } else {
        total(groups.drop_last(), x) + occurrences(groups.last(), x)
    }
}

/// Every item below `n` is in exactly one group, once, and nothing else is in
/// any group.
pub open spec fn partitions(groups: Seq<Seq<usize>>, n: nat) -> bool {
    forall|x: usize| #[trigger] total(groups, x) == (if x < n { 1nat } else { 0 })
}

/// Every item of every group is below `n`.
pub open spec fn within(groups: Seq<Seq<usize>>, n: nat) -> bool {
    forall|p: int, q: int| 0 <= p < groups.len() && 0 <= q < groups[p].len() ==> (#[trigger] groups[p][q]) < n
}

/// No group is empty, and every item is below `n`.
pub open spec fn sane(groups: Seq<Seq<usize>>, n: nat) -> bool {
    &&& forall|p: int| 0 <= p < groups.len() ==> (#[trigger] groups[p]).len() > 0
    &&& within(groups, n)
}

pub proof fn lemma_occurrences_concat(a: Seq<usize>, b: Seq<usize>, x: usize)
    ensures
        occurrences(a + b, x) == occurrences(a, x) + occurrences(b, x),
    decreases b.len(),
{
    if b.len() == 0 {
        assert(a + b =~= a);
    } else {
        lemma_occurrences_concat(a, b.drop_last(), x);
        assert((a + b).drop_last() =~= a + b.drop_last());
    }
}

pub proof fn lemma_occurrences_push(a: Seq<usize>, y: usize, x: usize)
    ensures
        occurrences(a.push(y), x) == occurrences(a, x) + (if x == y { 1nat } else { 0 }),
{
    assert(a.push(y).drop_last() =~= a);
}

pub proof fn lemma_total_push(groups: Seq<Seq<usize>>, g: Seq<usize>, x: usize)
    ensures
        total(groups.push(g), x) == total(groups, x) + occurrences(g, x),
{
    assert(groups.push(g).drop_last() =~= groups);
}

pub proof fn lemma_total_concat(a: Seq<Seq<usize>>, b: Seq<Seq<usize>>, x: usize)
    ensures
        total(a + b, x) == total(a, x) + total(b, x),
    decreases b.len(),
{
    if b.len() == 0 {
        assert(a + b =~= a);
    } else {
        lemma_total_concat(a, b.drop_last(), x);
        assert((a + b).drop_last() =~= a + b.drop_last());
    }
}

pub proof fn lemma_total_update(groups: Seq<Seq<usize>>, p: int, g: Seq<usize>, x: usize)
    requires
        0 <= p < groups.len(),
    ensures
        total(groups.update(p, g), x) + occurrences(groups[p], x) == total(groups, x) + occurrences(g, x),
    decreases groups.len(),
{
    let last = groups.len() - 1;
    if p == last {
        assert(groups.update(p, g).drop_last() =~= groups.drop_last());
    } else {
        lemma_total_update(groups.drop_last(), p, g, x);
        assert(groups.update(p, g).drop_last() =~= groups.drop_last().update(p, g));
    }
}

pub proof fn lemma_occurs(s: Seq<usize>, p: int)
    requires
        0 <= p < s.len(),
    ensures
        occurrences(s, s[p]) >= 1,
    decreases s.len(),
{
    if p < s.len() - 1 {
        lemma_occurs(s.drop_last(), p);
        assert(s.drop_last()[p] == s[p]);
    }
}

pub proof fn lemma_occurs_in_groups(groups: Seq<Seq<usize>>, p: int, q: int)
    requires
        0 <= p < groups.len(),
        0 <= q < groups[p].len(),
    ensures
        total(groups, groups[p][q]) >= 1,
    decreases groups.len(),
{
    if p < groups.len() - 1 {
        lemma_occurs_in_groups(groups.drop_last(), p, q);
        assert(groups.drop_last()[p][q] == groups[p][q]);
    } else {
        lemma_occurs(groups[p], q);
    }
}

/// The groups of a partition hold nothing but items below `n`.
pub proof fn law_partition_is_within(groups: Seq<Seq<usize>>, n: nat)
    requires
        partitions(groups, n),
    ensures
        within(groups, n),
{
    assert forall|p: int, q: int| 0 <= p < groups.len() && 0 <= q < groups[p].len() implies (#[trigger] groups[p][q]) < n by {
        lemma_occurs_in_groups(groups, p, q);
        assert(total(groups, groups[p][q]) >= 1);
    }
}

/// The clusters below `k` that are the first of their class.
pub open spec fn leaders(roots: Seq<usize>, k: int) -> Seq<usize>
    decreases k,
{
    if k <= 0 {
        Seq::empty()
    } else if exists|m: int| 0 <= m < k - 1 && #[trigger] roots[m] == roots[k - 1] {
        leaders(roots, k - 1)
    } else {
        leaders(roots, k - 1).push((k - 1) as usize)
    }
}

/// The boxes of the clusters below `k` that are labelled `root`.
pub open spec fn gathered(clusters: Seq<Seq<usize>>, roots: Seq<usize>, root: usize, k: int) -> Seq<usize>
    decreases k,
{
    if k <= 0 {
        Seq::empty()
    } else if roots[k - 1] == root {
        gathered(clusters, roots, root, k - 1) + clusters[k - 1]
    } else {
        gathered(clusters, roots, root, k - 1)
    }
}

/// One group for each class, in the order of the classes' first clusters; it
/// holds the boxes of the class, cluster by cluster.
pub open spec fn classes(clusters: Seq<Seq<usize>>, roots: Seq<usize>, k: int) -> Seq<Seq<usize>> {
    let firsts = leaders(roots, k);
    Seq::new(firsts.len(), |p: int| gathered(clusters, roots, roots[firsts[p] as int], k))
}

/// Copies `more` to the end of `group`.
pub fn append_copy(group: &mut Vec<usize>, more: &Vec<usize>)
    ensures
        final(group)@ == old(group)@ + more@,
{
    let mut k: usize = 0;
    while k < more.len()
        invariant
            k <= more.len(),
            group@ == old(group)@ + more@.take(k as int),
        decreases more.len() - k,
    {
        group.push(more[k]);
        k = k + 1;
        assert(more@.take(k as int) =~= more@.take(k - 1).push(more@[k - 1]));
    }
    assert(more@.take(more.len() as int) =~= more@);
}

/// A copy of `group`.
pub fn copy_group(group: &Vec<usize>) -> (copy: Vec<usize>)
    ensures
        copy@ == group@,
{
    let mut copy: Vec<usize> = Vec::new();
    append_copy(&mut copy, group);
    assert(copy@ =~= group@);
    copy
}

proof fn lemma_leaders(roots: Seq<usize>, k: int)
    requires
        0 <= k <= roots.len(),
        roots.len() <= usize::MAX,
    ensures
        forall|p: int| 0 <= p < leaders(roots, k).len() ==> (#[trigger] leaders(roots, k)[p]) < k,
        leaders(roots, k).len() <= k,
    decreases k,
{
    if k > 0 {
        lemma_leaders(roots, k - 1);
    }
}

proof fn lemma_unseen_class_is_empty(clusters: Seq<Seq<usize>>, roots: Seq<usize>, root: usize, k: int)
    requires
        forall|m: int| 0 <= m < k ==> #[trigger] roots[m] != root,
    ensures
        gathered(clusters, roots, root, k) == Seq::<usize>::empty(),
    decreases k,
{
    if k > 0 {
        lemma_unseen_class_is_empty(clusters, roots, root, k - 1);
    }
}

/// The boxes of each class of clusters, gathered into one group per class.
pub fn gather_classes(clusters: &Vec<Vec<usize>>, set: &mut DisjointSet) -> (groups: Vec<Vec<usize>>)
    requires
        old(set).wf(),
        old(set)@.len() == clusters.len(),
    ensures
        final(set).wf(),
        final(set)@ == old(set)@,
        contents(groups@) == classes(contents(clusters@), old(set)@, clusters.len() as int),
{
    let n = clusters.len();
    let ghost roots = set@;
    let ghost all = contents(clusters@);
    proof {
        set.lemma_wf_labels();
    }
    let mut slot: Vec<usize> = Vec::new();
    let mut k: usize = 0;
    while k < n
        invariant
            k <= n,
            slot.len() == k,
            forall|r: int| 0 <= r < k ==> #[trigger] slot[r] == n,
        decreases n - k,
    {
        slot.push(n);
        k = k + 1;
    }
    let mut groups: Vec<Vec<usize>> = Vec::new();
    k = 0;
    while k < n
        invariant
            k <= n,
            n == clusters.len(),
            all == contents(clusters@),
            set.wf(),
            set@ == roots,
            roots == old(set)@,
            disjoint::is_labelling(roots),
            roots.len() == n,
            slot.len() == n,
            groups.len() <= k,
            groups.len() == leaders(roots, k as int).len(),
            forall|p: int| 0 <= p < groups.len() ==> (#[trigger] leaders(roots, k as int)[p]) < k,
            forall|p: int| 0 <= p < groups.len() ==> #[trigger] groups[p]@ == gathered(all, roots, roots[leaders(roots, k as int)[p] as int], k as int),
            forall|p: int| 0 <= p < groups.len() ==> slot[roots[#[trigger] leaders(roots, k as int)[p] as int] as int] == p,
            forall|r: int| 0 <= r < n && #[trigger] slot[r] != n ==> slot[r] < groups.len() && roots[leaders(roots, k as int)[slot[r] as int] as int] == r,
            forall|m: int| 0 <= m < k ==> slot[#[trigger] roots[m] as int] != n,
        decreases n - k,
    {
        let ghost was = leaders(roots, k as int);
        let root = set.find(k);
        let at = slot[root];
        if at == n {
            proof {
                assert forall|m: int| 0 <= m < k implies #[trigger] roots[m] != root by {
                    assert(slot[roots[m] as int] != n);
                }
                lemma_unseen_class_is_empty(all, roots, root, k as int);
                assert(leaders(roots, k + 1) == was.push(k));
            }
            let copy = copy_group(&clusters[k]);
            slot.set(root, groups.len());
            groups.push(copy);
            assert(gathered(all, roots, root, k + 1) =~= copy@);
        } else {
            proof {
                let m = was[at as int] as int;
                assert(roots[m] == roots[k as int]);
                assert(leaders(roots, k + 1) == was);
            }
            append_copy(&mut groups[at], &clusters[k]);
        }
        k = k + 1;
        proof {
            let now = leaders(roots, k as int);
            assert forall|p: int| 0 <= p < groups.len() implies #[trigger] groups[p]@ == gathered(all, roots, roots[now[p] as int], k as int) by {
                if at == n && p == groups.len() - 1 {
                } else {
                    assert(now[p] == was[p]);
                    assert(slot[roots[now[p] as int] as int] == p);
                }
            }
        }
    }
    assert(contents(groups@) =~= classes(all, roots, n as int));
    groups
}

proof fn lemma_gathered_total(clusters: Seq<Seq<usize>>, roots: Seq<usize>, k: int, x: usize)
    requires
        roots.len() == clusters.len(),
        0 <= k <= clusters.len(),
        roots.len() <= usize::MAX,
    ensures
        total(classes(clusters, roots, k), x) == total(clusters.take(k), x),
    decreases k,
{
    if k == 0 {
        assert(clusters.take(0) =~= Seq::empty());
        assert(classes(clusters, roots, 0) =~= Seq::empty());
    } else {
        lemma_gathered_total(clusters, roots, k - 1, x);
        lemma_leaders(roots, k - 1);
        let was = leaders(roots, k - 1);
        let before = classes(clusters, roots, k - 1);
        let after = classes(clusters, roots, k);
        assert(clusters.take(k) =~= clusters.take(k - 1).push(clusters[k - 1]));
        lemma_total_push(clusters.take(k - 1), clusters[k - 1], x);
        let root = roots[k - 1];
        lemma_leader_roots_distinct(roots, k - 1);
        if exists|m: int| 0 <= m < k - 1 && #[trigger] roots[m] == root {
            let m = choose|m: int| 0 <= m < k - 1 && #[trigger] roots[m] == root;
            lemma_class_has_leader(roots, k - 1, m);
            let p = choose|p: int| 0 <= p < was.len() && roots[#[trigger] was[p] as int] == root;
            assert(after =~= before.update(p, before[p] + clusters[k - 1])) by {
                assert forall|q: int| 0 <= q < after.len() && q != p implies after[q] == before[q] by {
                    assert(roots[was[q] as int] != roots[was[p] as int]);
                }
            }
            lemma_total_update(before, p, before[p] + clusters[k - 1], x);
            lemma_occurrences_concat(before[p], clusters[k - 1], x);
        } else {
            lemma_unseen_class_is_empty(clusters, roots, root, k - 1);
            assert(after =~= before.push(clusters[k - 1])) by {
                assert(gathered(clusters, roots, root, k) =~= clusters[k - 1]);
                assert forall|q: int| 0 <= q < before.len() implies after[q] == before[q] by {
                    assert(was[q] < k - 1);
                    assert(roots[was[q] as int] != root);
                }
            }
            lemma_total_push(before, clusters[k - 1], x);
        }
    }
}

proof fn lemma_leader_roots_distinct(roots: Seq<usize>, k: int)
    requires
        0 <= k <= roots.len(),
        roots.len() <= usize::MAX,
    ensures
        forall|p: int, q: int|
            0 <= p < leaders(roots, k).len() && 0 <= q < leaders(roots, k).len() && p != q ==> roots[#[trigger] leaders(
                roots,
                k,
            )[p] as int] != roots[#[trigger] leaders(roots, k)[q] as int],
    decreases k,
{
    if k > 0 {
        lemma_leader_roots_distinct(roots, k - 1);
        lemma_leaders(roots, k - 1);
    }
}

proof fn lemma_class_has_leader(roots: Seq<usize>, k: int, m: int)
    requires
        0 <= m < k <= roots.len(),
        roots.len() <= usize::MAX,
    ensures
        exists|p: int| 0 <= p < leaders(roots, k).len() && roots[#[trigger] leaders(roots, k)[p] as int] == roots[m],
    decreases k,
{
    if m < k - 1 {
        lemma_class_has_leader(roots, k - 1, m);
        let p = choose|p: int| 0 <= p < leaders(roots, k - 1).len() && roots[#[trigger] leaders(roots, k - 1)[p] as int] == roots[m];
        assert(leaders(roots, k)[p] == leaders(roots, k - 1)[p]);
    } else if exists|j: int| 0 <= j < k - 1 && #[trigger] roots[j] == roots[k - 1] {
        let j = choose|j: int| 0 <= j < k - 1 && #[trigger] roots[j] == roots[k - 1];
        lemma_class_has_leader(roots, k - 1, j);
        let p = choose|p: int| 0 <= p < leaders(roots, k - 1).len() && roots[#[trigger] leaders(roots, k - 1)[p] as int] == roots[j];
        assert(leaders(roots, k)[p] == leaders(roots, k - 1)[p]);
    } else {
        let p = leaders(roots, k).len() - 1;
        assert(leaders(roots, k)[p] == k - 1);
    }
}

/// Gathering classes loses no box and repeats none.
pub proof fn law_gathering_keeps_boxes(clusters: Seq<Seq<usize>>, roots: Seq<usize>, x: usize)
    requires
        roots.len() == clusters.len(),
        roots.len() <= usize::MAX,
    ensures
        total(classes(clusters, roots, clusters.len() as int), x) == total(clusters, x),
{
    lemma_gathered_total(clusters, roots, clusters.len() as int, x);
    assert(clusters.take(clusters.len() as int) =~= clusters);
}

/// The first `k` items, cut between two neighbours wherever `cut` holds of
/// them.
pub open spec fn runs(items: Seq<usize>, k: int, cut: spec_fn(int, int) -> bool) -> Seq<Seq<usize>>
    decreases k,
{
    if k <= 0 {
        Seq::empty()
    } else {
        let before = runs(items, k - 1, cut);
        if k == 1 || cut(items[k - 2] as int, items[k - 1] as int) {
            before.push(seq![items[k - 1]])
        } else {
            before.update(before.len() - 1, before.last().push(items[k - 1]))
        }
    }
}

proof fn lemma_runs_nonempty(items: Seq<usize>, k: int, cut: spec_fn(int, int) -> bool)
    requires
        0 <= k <= items.len(),
    ensures
        k > 0 ==> runs(items, k, cut).len() > 0,
        runs(items, k, cut).len() <= k,
    decreases k,
{
    if k > 0 {
        lemma_runs_nonempty(items, k - 1, cut);
    }
}

/// No run is longer than the items that were cut.
pub proof fn lemma_runs_are_short(items: Seq<usize>, k: int, cut: spec_fn(int, int) -> bool)
    requires
        0 <= k <= items.len(),
    ensures
        forall|p: int| 0 <= p < runs(items, k, cut).len() ==> (#[trigger] runs(items, k, cut)[p]).len() <= k,
    decreases k,
{
    if k > 0 {
        lemma_runs_are_short(items, k - 1, cut);
        lemma_runs_nonempty(items, k - 1, cut);
        let before = runs(items, k - 1, cut);
        let after = runs(items, k, cut);
        assert forall|p: int| 0 <= p < after.len() implies (#[trigger] after[p]).len() <= k by {
            if p < before.len() - 1 {
                assert(after[p] == before[p]);
            } else if p < before.len() {
                assert(before[p].len() <= k - 1);
            }
        }
    }
}

/// Items one after another, cut wherever the judge says so.
pub fn cut_into_runs<F: Fn(usize, usize) -> bool>(items: &Vec<usize>, n: usize, cut: F) -> (out: Vec<Vec<usize>>)
    requires
        judge::callable(cut, n as nat),
        forall|p: int| 0 <= p < items.len() ==> (#[trigger] items[p]) < n,
    ensures
        items.len() > 0 ==> out.len() > 0,
        sane(contents(out@), n as nat),
        forall|rel: spec_fn(int, int) -> bool| #[trigger]
            judge::decides(cut, rel) ==> contents(out@) == runs(items@, items.len() as int, rel),
{
    let mut out: Vec<Vec<usize>> = Vec::new();
    let mut k: usize = 0;
    while k < items.len()
        invariant
            k <= items.len(),
            judge::callable(cut, n as nat),
            forall|p: int| 0 <= p < items.len() ==> (#[trigger] items[p]) < n,
            k > 0 ==> out.len() > 0,
            sane(contents(out@), n as nat),
            forall|rel: spec_fn(int, int) -> bool| #[trigger]
                judge::decides(cut, rel) ==> contents(out@) == runs(items@, k as int, rel),
        decreases items.len() - k,
    {
        let ghost was = contents(out@);
        let fresh = if k == 0 {
            true
        } else {
            cut(items[k - 1], items[k])
        };
        if fresh {
            let mut one: Vec<usize> = Vec::new();
            one.push(items[k]);
            out.push(one);
            assert(one@ =~= seq![items[k as int]]);
            assert(contents(out@) =~= was.push(seq![items[k as int]]));
        } else {
            let last = out.len() - 1;
            let item = items[k];
            out[last].push(item);
            assert(contents(out@) =~= was.update(last as int, was.last().push(item)));
        }
        k = k + 1;
    }
    out
}

/// Cutting into runs loses no item and repeats none.
pub proof fn law_runs_keep_items(items: Seq<usize>, k: int, cut: spec_fn(int, int) -> bool, x: usize)
    requires
        0 <= k <= items.len(),
    ensures
        total(runs(items, k, cut), x) == occurrences(items.take(k), x),
    decreases k,
{
    if k == 0 {
        assert(items.take(0) =~= Seq::empty());
    } else {
        law_runs_keep_items(items, k - 1, cut, x);
        lemma_runs_nonempty(items, k - 1, cut);
        let before = runs(items, k - 1, cut);
        assert(items.take(k) =~= items.take(k - 1).push(items[k - 1]));
        lemma_occurrences_push(items.take(k - 1), items[k - 1], x);
        if k == 1 || cut(items[k - 2] as int, items[k - 1] as int) {
            lemma_total_push(before, seq![items[k - 1]], x);
            assert(seq![items[k - 1]] =~= Seq::<usize>::empty().push(items[k - 1]));
            lemma_occurrences_push(Seq::empty(), items[k - 1], x);
        } else {
            lemma_total_update(before, before.len() - 1, before.last().push(items[k - 1]), x);
            lemma_occurrences_push(before.last(), items[k - 1], x);
        }
    }
}

/// The items of `group` at the positions that `order` lists.
pub open spec fn rearranged(group: Seq<usize>, order: Seq<usize>) -> Seq<usize> {
    Seq::new(order.len(), |p: int| group[order[p] as int])
}

/// The ordinals of the items of `group`.
pub open spec fn ordinals_of(group: Seq<usize>, ordinals: Seq<Ordinal>) -> Seq<Ordinal> {
    Seq::new(group.len(), |p: int| ordinals[group[p] as int])
}

/// `group` in ascending order of the items' ordinals, items with equal
/// ordinals staying in the order they had.
pub open spec fn sorted_group(group: Seq<usize>, ordinals: Seq<Ordinal>) -> Seq<usize> {
    rearranged(group, ordering::sorted_positions(ordering::rising(ordinals_of(group, ordinals))))
}

/// `group` in ascending order of the items' ordinals.
pub fn sort_group(group: &Vec<usize>, ordinals: &Vec<Ordinal>) -> (sorted: Vec<usize>)
    requires
        forall|p: int| 0 <= p < group.len() ==> (#[trigger] group[p]) < ordinals.len(),
    ensures
        sorted@ == sorted_group(group@, ordinals@),
        sorted.len() == group.len(),
        forall|p: int| 0 <= p < sorted.len() ==> (#[trigger] sorted[p]) < ordinals.len(),
{
    let mut keys: Vec<Ordinal> = Vec::new();
    let mut k: usize = 0;
    while k < group.len()
        invariant
            k <= group.len(),
            forall|p: int| 0 <= p < group.len() ==> (#[trigger] group[p]) < ordinals.len(),
            keys@ == ordinals_of(group@, ordinals@).take(k as int),
        decreases group.len() - k,
    {
        keys.push(ordinals[group[k]]);
        k = k + 1;
        assert(keys@ =~= ordinals_of(group@, ordinals@).take(k as int));
    }
    assert(keys@ =~= ordinals_of(group@, ordinals@));
    let order = ordering::order_rising(&keys);
    let mut sorted: Vec<usize> = Vec::new();
    k = 0;
    while k < order.len()
        invariant
            k <= order.len(),
            order.len() == group.len(),
            ordering::is_permutation(order@, group.len() as nat),
            forall|p: int| 0 <= p < group.len() ==> (#[trigger] group[p]) < ordinals.len(),
            sorted@ == rearranged(group@, order@).take(k as int),
            forall|p: int| 0 <= p < sorted.len() ==> (#[trigger] sorted[p]) < ordinals.len(),
        decreases order.len() - k,
    {
        sorted.push(group[order[k]]);
        k = k + 1;
        assert(sorted@ =~= rearranged(group@, order@).take(k as int));
    }
    assert(sorted@ =~= rearranged(group@, order@));
    sorted
}

proof fn lemma_occurrences_remove(s: Seq<usize>, m: int, x: usize)
    requires
        0 <= m < s.len(),
    ensures
        occurrences(s, x) == occurrences(s.remove(m), x) + (if s[m] == x { 1nat } else { 0 }),
    decreases s.len(),
{
    if m == s.len() - 1 {
        assert(s.remove(m) =~= s.drop_last());
    } else {
        lemma_occurrences_remove(s.drop_last(), m, x);
        assert(s.remove(m).drop_last() =~= s.drop_last().remove(m));
    }
}

/// Rearranging a group loses no item and repeats none.
pub proof fn law_rearranging_keeps_items(group: Seq<usize>, order: Seq<usize>, x: usize)
    requires
        ordering::is_permutation(order, group.len()),
    ensures
        occurrences(rearranged(group, order), x) == occurrences(group, x),
    decreases group.len(),
{
    if group.len() == 0 {
        assert(rearranged(group, order) =~= group);
    } else {
        let m = order.last() as int;
        let rest = group.remove(m);
        let lower = Seq::new(
            (order.len() - 1) as nat,
            |p: int| if order[p] > m { (order[p] - 1) as usize } else { order[p] },
        );
        assert(ordering::is_permutation(lower, rest.len())) by {
            assert forall|p: int| 0 <= p < lower.len() implies (#[trigger] lower[p]) < rest.len() by {
                assert(order[p] != order.last());
            }
            assert forall|p: int, q: int| 0 <= p < lower.len() && 0 <= q < lower.len() && p != q implies lower[p] != lower[q] by {
                assert(order[p] != order[q]);
                assert(order[p] != order.last());
                assert(order[q] != order.last());
            }
        }
        law_rearranging_keeps_items(rest, lower, x);
        assert(rearranged(group, order).drop_last() =~= rearranged(rest, lower)) by {
            assert forall|p: int| 0 <= p < lower.len() implies group[order[p] as int] == rest[lower[p] as int] by {
                assert(order[p] != order.last());
            }
        }
        lemma_occurrences_remove(group, m, x);
    }
}

/// The judge may be asked about every group and every two of its items.
pub open spec fn gap_callable<F: Fn(&Vec<usize>, usize, usize) -> bool>(judge: F) -> bool {
    forall|group: &Vec<usize>, a: usize, b: usize| #[trigger] call_requires(judge, (group, a, b))
}

/// The judge answers as `rel` does.
pub open spec fn gap_decides<F: Fn(&Vec<usize>, usize, usize) -> bool>(
    judge: F,
    rel: spec_fn(Seq<usize>, int, int) -> bool,
) -> bool {
    forall|group: &Vec<usize>, a: usize, b: usize, r: bool| #[trigger]
        call_ensures(judge, (group, a, b), r) ==> r == rel(group@, a as int, b as int)
}

/// The cuts within one group.
pub open spec fn cuts_of(gap: spec_fn(Seq<usize>, int, int) -> bool, group: Seq<usize>) -> spec_fn(int, int) -> bool {
    |a: int, b: int| gap(group, a, b)
}

/// The lines of one group. A group of fewer than three boxes, or a tilted one,
/// is one line. Any other is sorted from top to bottom and cut at the wide
/// gaps; without a wide gap it stays as it is.
pub open spec fn lines_of(
    group: Seq<usize>,
    centers: Seq<Ordinal>,
    tilted: spec_fn(Seq<usize>) -> bool,
    gap: spec_fn(Seq<usize>, int, int) -> bool,
) -> Seq<Seq<usize>> {
    if group.len() < 3 || tilted(group) {
        seq![group]
    } else {
        let sorted = sorted_group(group, centers);
        let lines = runs(sorted, sorted.len() as int, cuts_of(gap, group));
        if lines.len() <= 1 {
            seq![group]
        } else {
            lines
        }
    }
}

/// The lines of the first `k` groups.
pub open spec fn split(
    groups: Seq<Seq<usize>>,
    centers: Seq<Ordinal>,
    tilted: spec_fn(Seq<usize>) -> bool,
    gap: spec_fn(Seq<usize>, int, int) -> bool,
    k: int,
) -> Seq<Seq<usize>>
    decreases k,
{
    if k <= 0 {
        Seq::empty()
    } else {
        split(groups, centers, tilted, gap, k - 1) + lines_of(groups[k - 1], centers, tilted, gap)
    }
}

proof fn lemma_sane_concat(a: Seq<Seq<usize>>, b: Seq<Seq<usize>>, n: nat)
    requires
        sane(a, n),
        sane(b, n),
    ensures
        sane(a + b, n),
{
    let both = a + b;
    assert forall|p: int| 0 <= p < both.len() implies (#[trigger] both[p]).len() > 0 by {
        if p < a.len() {
            assert(both[p] == a[p]);
        } else {
            assert(both[p] == b[p - a.len()]);
        }
    }
    assert forall|p: int, q: int| 0 <= p < both.len() && 0 <= q < both[p].len() implies (#[trigger] both[p][q]) < n by {
        if p < a.len() {
            assert(both[p][q] == a[p][q]);
        } else {
            assert(both[p][q] == b[p - a.len()][q]);
        }
    }
}

proof fn lemma_gathered_sane(clusters: Seq<Seq<usize>>, roots: Seq<usize>, root: usize, n: nat, k: int)
    requires
        sane(clusters, n),
        0 <= k <= clusters.len(),
    ensures
        forall|q: int| 0 <= q < gathered(clusters, roots, root, k).len() ==> (#[trigger] gathered(clusters, roots, root, k)[q]) < n,
        forall|m: int| 0 <= m < k && #[trigger] roots[m] == root ==> gathered(clusters, roots, root, k).len() > 0,
    decreases k,
{
    if k > 0 {
        lemma_gathered_sane(clusters, roots, root, n, k - 1);
        let before = gathered(clusters, roots, root, k - 1);
        let after = gathered(clusters, roots, root, k);
        assert(clusters[k - 1].len() > 0);
        assert forall|q: int| 0 <= q < after.len() implies (#[trigger] after[q]) < n by {
            if q < before.len() {
                assert(after[q] == before[q]);
            } else {
                assert(after[q] == clusters[k - 1][q - before.len()]);
            }
        }
    }
}

/// Gathering classes of clusters leaves no group empty, and adds no box.
pub proof fn lemma_classes_sane(clusters: Seq<Seq<usize>>, roots: Seq<usize>, n: nat)
    requires
        sane(clusters, n),
        roots.len() == clusters.len() <= usize::MAX,
    ensures
        sane(classes(clusters, roots, clusters.len() as int), n),
{
    let k = clusters.len() as int;
    let firsts = leaders(roots, k);
    lemma_leaders(roots, k);
    let all = classes(clusters, roots, k);
    assert forall|p: int| 0 <= p < all.len() implies (#[trigger] all[p]).len() > 0 by {
        lemma_gathered_sane(clusters, roots, roots[firsts[p] as int], n, k);
        assert(firsts[p] < k);
        assert(roots[firsts[p] as int] == roots[firsts[p] as int]);
    }
    assert forall|p: int, q: int| 0 <= p < all.len() && 0 <= q < all[p].len() implies (#[trigger] all[p][q]) < n by {
        lemma_gathered_sane(clusters, roots, roots[firsts[p] as int], n, k);
    }
}

fn split_group<F: Fn(&Vec<usize>) -> bool, G: Fn(&Vec<usize>, usize, usize) -> bool>(
    group: &Vec<usize>,
    centers: &Vec<Ordinal>,
    tilted: &F,
    wide_gap: &G,
) -> (lines: Vec<Vec<usize>>)
    requires
        judge::group_callable(*tilted),
        gap_callable(*wide_gap),
        forall|p: int| 0 <= p < group.len() ==> (#[trigger] group[p]) < centers.len(),
    ensures
        group.len() > 0 ==> sane(contents(lines@), centers.len() as nat),
        forall|tilt: spec_fn(Seq<usize>) -> bool, gap: spec_fn(Seq<usize>, int, int) -> bool|
            #[trigger] judge::group_decides(*tilted, tilt) && #[trigger] gap_decides(*wide_gap, gap) ==> contents(lines@)
                == lines_of(group@, centers@, tilt, gap),
{
    let mut whole: Vec<Vec<usize>> = Vec::new();
    whole.push(copy_group(group));
    assert(contents(whole@) =~= seq![group@]);
    if group.len() < 3 {
        return whole;
    }
    if tilted(group) {
        return whole;
    }
    let sorted = sort_group(group, centers);
    let cut = |a: usize, b: usize| -> (r: bool)
        ensures
            call_ensures(*wide_gap, (group, a, b), r),
        { wide_gap(group, a, b) };
    let lines = cut_into_runs(&sorted, centers.len(), cut);
    proof {
        assert forall|tilt: spec_fn(Seq<usize>) -> bool, gap: spec_fn(Seq<usize>, int, int) -> bool|
            #[trigger] judge::group_decides(*tilted, tilt) && #[trigger] gap_decides(*wide_gap, gap) implies contents(lines@)
            == runs(sorted@, sorted.len() as int, cuts_of(gap, group@)) by {
            assert(judge::decides(cut, cuts_of(gap, group@)));
        }
    }
    if lines.len() <= 1 {
        whole
    } else {
        lines
    }
}

/// Cuts groups that span several text lines into these lines. `centers` orders
/// the boxes from top to bottom.
pub fn split_lines<F: Fn(&Vec<usize>) -> bool, G: Fn(&Vec<usize>, usize, usize) -> bool>(
    groups: &Vec<Vec<usize>>,
    centers: &Vec<Ordinal>,
    tilted: F,
    wide_gap: G,
) -> (lines: Vec<Vec<usize>>)
    requires
        judge::group_callable(tilted),
        gap_callable(wide_gap),
        within(contents(groups@), centers.len() as nat),
    ensures
        sane(contents(groups@), centers.len() as nat) ==> sane(contents(lines@), centers.len() as nat),
        forall|tilt: spec_fn(Seq<usize>) -> bool, gap: spec_fn(Seq<usize>, int, int) -> bool|
            #[trigger] judge::group_decides(tilted, tilt) && #[trigger] gap_decides(wide_gap, gap) ==> contents(lines@) == split(
                contents(groups@),
                centers@,
                tilt,
                gap,
                groups.len() as int,
            ),
{
    let mut lines: Vec<Vec<usize>> = Vec::new();
    let ghost all = contents(groups@);
    let mut k: usize = 0;
    assert(contents(lines@) =~= Seq::empty());
    while k < groups.len()
        invariant
            k <= groups.len(),
            all == contents(groups@),
            judge::group_callable(tilted),
            gap_callable(wide_gap),
            within(all, centers.len() as nat),
            sane(all, centers.len() as nat) ==> sane(contents(lines@), centers.len() as nat),
            forall|tilt: spec_fn(Seq<usize>) -> bool, gap: spec_fn(Seq<usize>, int, int) -> bool|
                #[trigger] judge::group_decides(tilted, tilt) && #[trigger] gap_decides(wide_gap, gap) ==> contents(lines@)
                    == split(all, centers@, tilt, gap, k as int),
        decreases groups.len() - k,
    {
        let ghost was = contents(lines@);
        assert forall|p: int| 0 <= p < groups[k as int].len() implies (#[trigger] groups[k as int][p]) < centers.len() by {
            assert(all[k as int][p] < centers.len());
        }
        let mut more = split_group(&groups[k], centers, &tilted, &wide_gap);
        let ghost added = contents(more@);
        lines.append(&mut more);
        assert(contents(lines@) =~= was + added);
        proof {
            if sane(all, centers.len() as nat) {
                assert(all[k as int].len() > 0);
                lemma_sane_concat(was, added, centers.len() as nat);
            }
        }
        k = k + 1;
    }
    lines
}

proof fn lemma_split_keeps(
    groups: Seq<Seq<usize>>,
    centers: Seq<Ordinal>,
    tilted: spec_fn(Seq<usize>) -> bool,
    gap: spec_fn(Seq<usize>, int, int) -> bool,
    k: int,
    x: usize,
)
    requires
        0 <= k <= groups.len(),
        forall|p: int| 0 <= p < groups.len() ==> (#[trigger] groups[p]).len() <= usize::MAX,
    ensures
        total(split(groups, centers, tilted, gap, k), x) == total(groups.take(k), x),
    decreases k,
{
    if k == 0 {
        assert(groups.take(0) =~= Seq::empty());
    } else {
        lemma_split_keeps(groups, centers, tilted, gap, k - 1, x);
        let group = groups[k - 1];
        let lines = lines_of(group, centers, tilted, gap);
        lemma_total_concat(split(groups, centers, tilted, gap, k - 1), lines, x);
        assert(groups.take(k) =~= groups.take(k - 1).push(group));
        lemma_total_push(groups.take(k - 1), group, x);
        assert(total(seq![group], x) == occurrences(group, x)) by {
            assert(seq![group] =~= Seq::<Seq<usize>>::empty().push(group));
            lemma_total_push(Seq::empty(), group, x);
        }
        let keys = ordering::rising(ordinals_of(group, centers));
        ordering::law_stable_order_exists(keys);
        let sorted = sorted_group(group, centers);
        law_rearranging_keeps_items(group, ordering::sorted_positions(keys), x);
        law_runs_keep_items(sorted, sorted.len() as int, cuts_of(gap, group), x);
        assert(sorted.take(sorted.len() as int) =~= sorted);
    }
}

/// Splitting groups into lines loses no box and repeats none.
pub proof fn law_splitting_keeps_boxes(
    groups: Seq<Seq<usize>>,
    centers: Seq<Ordinal>,
    tilted: spec_fn(Seq<usize>) -> bool,
    gap: spec_fn(Seq<usize>, int, int) -> bool,
    x: usize,
)
    requires
        forall|p: int| 0 <= p < groups.len() ==> (#[trigger] groups[p]).len() <= usize::MAX,
    ensures
        total(split(groups, centers, tilted, gap, groups.len() as int), x) == total(groups, x),
{
    lemma_split_keeps(groups, centers, tilted, gap, groups.len() as int, x);
    assert(groups.take(groups.len() as int) =~= groups);
}

proof fn lemma_distinct_below(s: Seq<usize>, n: nat)
    requires
        s.no_duplicates(),
        forall|p: int| 0 <= p < s.len() ==> (#[trigger] s[p]) < n,
    ensures
        s.len() <= n,
{
    let ints = s.map_values(|u: usize| u as int);
    assert(ints.no_duplicates()) by {
        assert forall|i: int, j: int| 0 <= i < ints.len() && 0 <= j < ints.len() && i != j implies ints[i] != ints[j] by {
            assert(s[i] != s[j]);
        }
    }
    ints.unique_seq_to_set();
    let all = vstd::set_lib::set_int_range(0, n as int);
    vstd::set_lib::lemma_int_range(0, n as int);
    assert(ints.to_set().subset_of(all)) by {
        assert forall|x: int| ints.to_set().contains(x) implies all.contains(x) by {
            let p = choose|p: int| 0 <= p < ints.len() && ints[p] == x;
            assert(s[p] < n);
        }
    }
    vstd::set_lib::lemma_len_subset(ints.to_set(), all);
}

proof fn lemma_occurs_twice(s: Seq<usize>, p: int, q: int)
    requires
        0 <= p < q < s.len(),
        s[p] == s[q],
    ensures
        occurrences(s, s[p]) >= 2,
    decreases s.len(),
{
    let before = s.drop_last();
    if q < before.len() {
        lemma_occurs_twice(before, p, q);
        assert(before[p] == s[p]);
    } else {
        lemma_occurs(before, p);
        assert(before[p] == s[p]);
    }
}

proof fn lemma_in_two_groups(groups: Seq<Seq<usize>>, p: int, q: int, x: usize)
    requires
        0 <= p < q < groups.len(),
    ensures
        total(groups, x) >= occurrences(groups[p], x) + occurrences(groups[q], x),
    decreases groups.len(),
{
    let before = groups.drop_last();
    if q < before.len() {
        lemma_in_two_groups(before, p, q, x);
        assert(before[p] == groups[p] && before[q] == groups[q]);
    } else {
        lemma_in_one_group(before, p, x);
        assert(before[p] == groups[p]);
    }
}

proof fn lemma_in_one_group(groups: Seq<Seq<usize>>, p: int, x: usize)
    requires
        0 <= p < groups.len(),
    ensures
        total(groups, x) >= occurrences(groups[p], x),
    decreases groups.len(),
{
    let before = groups.drop_last();
    if p < before.len() {
        lemma_in_one_group(before, p, x);
        assert(before[p] == groups[p]);
    }
}

/// A group of a partition has no more items than there are; and if none is
/// empty, there are no more groups than items.
pub proof fn law_partition_is_small(groups: Seq<Seq<usize>>, n: nat)
    requires
        partitions(groups, n),
    ensures
        forall|p: int| 0 <= p < groups.len() ==> (#[trigger] groups[p]).len() <= n,
        (forall|p: int| 0 <= p < groups.len() ==> (#[trigger] groups[p]).len() > 0) ==> groups.len() <= n,
{
    law_partition_is_within(groups, n);
    assert forall|p: int| 0 <= p < groups.len() implies (#[trigger] groups[p]).len() <= n by {
        let s = groups[p];
        assert(s.no_duplicates()) by {
            assert forall|i: int, j: int| 0 <= i < s.len() && 0 <= j < s.len() && i != j implies s[i] != s[j] by {
                if s[i] == s[j] {
                    let a = if i < j {
                        i
                    } else {
                        j
                    };
                    let b = if i < j {
                        j
                    } else {
                        i
                    };
                    lemma_occurs_twice(s, a, b);
                    lemma_in_one_group(groups, p, s[a]);
                    assert(total(groups, s[a]) <= 1);
                }
            }
        }
        assert forall|q: int| 0 <= q < s.len() implies (#[trigger] s[q]) < n by {
            assert(groups[p][q] < n);
        }
        lemma_distinct_below(s, n);
    }
    if forall|p: int| 0 <= p < groups.len() ==> (#[trigger] groups[p]).len() > 0 {
        let firsts = Seq::new(groups.len(), |p: int| groups[p][0]);
        assert forall|p: int| 0 <= p < firsts.len() implies (#[trigger] firsts[p]) < n by {
            assert(groups[p].len() > 0);
            assert(groups[p][0] < n);
        }
        assert(firsts.no_duplicates()) by {
            assert forall|i: int, j: int| 0 <= i < firsts.len() && 0 <= j < firsts.len() && i != j implies firsts[i]
                != firsts[j] by {
                if firsts[i] == firsts[j] {
                    let a = if i < j {
                        i
                    } else {
                        j
                    };
                    let b = if i < j {
                        j
                    } else {
                        i
                    };
                    assert(groups[a].len() > 0 && groups[b].len() > 0);
                    lemma_occurs(groups[a], 0);
                    lemma_occurs(groups[b], 0);
                    lemma_in_two_groups(groups, a, b, firsts[a]);
                    assert(total(groups, firsts[a]) <= 1);
                }
            }
        }
        lemma_distinct_below(firsts, n);
    }
}

proof fn lemma_runs_have_items(items: Seq<usize>, k: int, cut: spec_fn(int, int) -> bool)
    requires
        0 <= k <= items.len(),
    ensures
        forall|p: int| 0 <= p < runs(items, k, cut).len() ==> (#[trigger] runs(items, k, cut)[p]).len() > 0,
    decreases k,
{
    if k > 0 {
        lemma_runs_have_items(items, k - 1, cut);
        lemma_runs_nonempty(items, k - 1, cut);
        let before = runs(items, k - 1, cut);
        let after = runs(items, k, cut);
        assert forall|p: int| 0 <= p < after.len() implies (#[trigger] after[p]).len() > 0 by {
            if p < before.len() - 1 {
                assert(after[p] == before[p]);
            }
        }
    }
}

/// Cutting groups into lines leaves none empty.
pub proof fn lemma_split_has_items(
    groups: Seq<Seq<usize>>,
    centers: Seq<Ordinal>,
    tilted: spec_fn(Seq<usize>) -> bool,
    gap: spec_fn(Seq<usize>, int, int) -> bool,
    k: int,
)
    requires
        0 <= k <= groups.len(),
        forall|p: int| 0 <= p < groups.len() ==> (#[trigger] groups[p]).len() > 0,
    ensures
        forall|p: int|
            0 <= p < split(groups, centers, tilted, gap, k).len() ==> (#[trigger] split(groups, centers, tilted, gap, k)[p]).len()
                > 0,
    decreases k,
{
    if k > 0 {
        lemma_split_has_items(groups, centers, tilted, gap, k - 1);
        let before = split(groups, centers, tilted, gap, k - 1);
        let after = split(groups, centers, tilted, gap, k);
        let group = groups[k - 1];
        let lines = lines_of(group, centers, tilted, gap);
        let sorted = sorted_group(group, centers);
        lemma_runs_have_items(sorted, sorted.len() as int, cuts_of(gap, group));
        assert forall|p: int| 0 <= p < after.len() implies (#[trigger] after[p]).len() > 0 by {
            if p < before.len() {
                assert(after[p] == before[p]);
            } else {
                assert(after[p] == lines[p - before.len()]);
            }
        }
    }
}

/// How many cuts lie before place `a`.
pub open spec fn run_of(items: Seq<usize>, cut: spec_fn(int, int) -> bool, a: int) -> int
    decreases a,
{
    if a <= 0 {
        0
    } else {
        run_of(items, cut, a - 1) + (if cut(items[a - 1] as int, items[a] as int) {
            1int
        } else {
            0
        })
    }
}

/// Where the run that holds place `a` begins.
pub open spec fn run_start(items: Seq<usize>, cut: spec_fn(int, int) -> bool, a: int) -> int
    decreases a,
{
    if a <= 0 {
        0
    } else if cut(items[a - 1] as int, items[a] as int) {
        a
    } else {
        run_start(items, cut, a - 1)
    }
}

pub proof fn lemma_run_of(items: Seq<usize>, cut: spec_fn(int, int) -> bool, a: int, b: int)
    requires
        0 <= a <= b < items.len(),
    ensures
        0 <= run_of(items, cut, a) <= run_of(items, cut, b),
        0 <= run_start(items, cut, b) <= b,
        run_of(items, cut, a) == run_of(items, cut, b) <==> (forall|m: int|
            a <= m < b ==> !#[trigger] cut(items[m] as int, items[m + 1] as int)),
        run_of(items, cut, a) == run_of(items, cut, b) ==> run_start(items, cut, a) == run_start(items, cut, b),
    decreases b,
{
    if a < b {
        lemma_run_of(items, cut, a, b - 1);
        if run_of(items, cut, a) == run_of(items, cut, b) {
            assert forall|m: int| a <= m < b implies !#[trigger] cut(items[m] as int, items[m + 1] as int) by {
                if m == b - 1 {
                    assert(!cut(items[b - 1] as int, items[b] as int));
                }
            }
        } else if forall|m: int| a <= m < b ==> !#[trigger] cut(items[m] as int, items[m + 1] as int) {
            assert(!cut(items[b - 1] as int, items[b - 1 + 1] as int));
        }
    } else if a > 0 {
        lemma_run_of(items, cut, a - 1, a - 1);
    }
}

pub proof fn lemma_runs_hold(items: Seq<usize>, k: int, cut: spec_fn(int, int) -> bool, a: int)
    requires
        0 <= a < k <= items.len(),
    ensures
        runs(items, k, cut).len() == run_of(items, cut, k - 1) + 1,
        runs(items, k, cut).last().len() == k - run_start(items, cut, k - 1),
        ({
            let row = runs(items, k, cut)[run_of(items, cut, a)];
            let q = a - run_start(items, cut, a);
            0 <= q < row.len() && row[q] == items[a]
        }),
    decreases k,
{
    lemma_run_of(items, cut, a, k - 1);
    let before = runs(items, k - 1, cut);
    let after = runs(items, k, cut);
    if k > 1 {
        let prev = if a < k - 1 {
            a
        } else {
            k - 2
        };
        lemma_runs_hold(items, k - 1, cut, prev);
        lemma_run_of(items, cut, prev, k - 2);
        lemma_run_of(items, cut, k - 2, k - 1);
        if a < k - 1 {
            let r = run_of(items, cut, a);
            if cut(items[k - 2] as int, items[k - 1] as int) {
                assert(after[r] == before[r]);
            } else if r < before.len() - 1 {
                assert(after[r] == before[r]);
            }
        }
    }
}

/// Two items come in one run exactly if no cut lies between them; of two in
/// different runs the earlier one comes in the earlier run. Returned are the runs
/// of both.
pub proof fn law_runs_end_at_cuts(items: Seq<usize>, cut: spec_fn(int, int) -> bool, a: int, b: int) -> (at: (int, int))
    requires
        0 <= a < b < items.len(),
    ensures
        ({
            let all = runs(items, items.len() as int, cut);
            &&& 0 <= at.0 <= at.1 < all.len()
            &&& all[at.0].contains(items[a])
            &&& all[at.1].contains(items[b])
            &&& at.0 == at.1 <==> forall|m: int| a <= m < b ==> !#[trigger] cut(items[m] as int, items[m + 1] as int)
        }),
{
    let n = items.len() as int;
    lemma_runs_hold(items, n, cut, a);
    lemma_runs_hold(items, n, cut, b);
    lemma_run_of(items, cut, a, b);
    lemma_run_of(items, cut, b, n - 1);
    let (ra, rb) = (run_of(items, cut, a), run_of(items, cut, b));
    let all = runs(items, n, cut);
    assert(all[ra][a - run_start(items, cut, a)] == items[a]);
    assert(all[rb][b - run_start(items, cut, b)] == items[b]);
    (ra, rb)
}

/// A group of three boxes or more that is not tilted is cut between every two boxes
/// that follow each other from top to bottom with a wide gap between them, and
/// nowhere else. `places` lists the places of the boxes in the group from top to bottom,
/// those of one height as they come. Any other group is one line.
pub proof fn law_groups_are_cut_at_gaps(
    group: Seq<usize>,
    centers: Seq<Ordinal>,
    tilted: spec_fn(Seq<usize>) -> bool,
    gap: spec_fn(Seq<usize>, int, int) -> bool,
    places: Seq<usize>,
    a: int,
    b: int,
) -> (at: (int, int))
    requires
        group.len() <= usize::MAX,
        places.len() == group.len(),
        forall|p: int| 0 <= p < places.len() ==> (#[trigger] places[p]) < group.len(),
        forall|p: int, q: int|
            0 <= p < q < places.len() ==> {
                let (u, v) = (#[trigger] places[p], #[trigger] places[q]);
                centers[group[u as int] as int] < centers[group[v as int] as int] || centers[group[u as int] as int]
                    == centers[group[v as int] as int] && u < v
            },
        0 <= a < b < group.len(),
    ensures
        group.len() < 3 || tilted(group) ==> lines_of(group, centers, tilted, gap) == seq![group],
        group.len() >= 3 && !tilted(group) ==> {
            let lines = lines_of(group, centers, tilted, gap);
            let no_gap = forall|m: int|
                a <= m < b ==> !#[trigger] gap(group, group[places[m] as int] as int, group[places[m + 1] as int] as int);
            &&& 0 <= at.0 <= at.1 < lines.len()
            &&& lines[at.0].contains(group[places[a] as int])
            &&& lines[at.1].contains(group[places[b] as int])
            &&& at.0 == at.1 <==> no_gap
        },
{
    let keys = ordering::rising(ordinals_of(group, centers));
    assert(ordering::is_stable_order(places, keys)) by {
        assert forall|p: int, q: int| 0 <= p < q < places.len() implies ordering::comes_before(
            keys,
            #[trigger] places[p] as int,
            #[trigger] places[q] as int,
        ) by {
            let (u, v) = (places[p], places[q]);
            assert(centers[group[u as int] as int] < centers[group[v as int] as int] || centers[group[u as int] as int]
                == centers[group[v as int] as int] && u < v);
        }
        assert forall|p: int, q: int| 0 <= p < places.len() && 0 <= q < places.len() && p != q implies places[p]
            != places[q] by {
            if p < q {
                assert(ordering::comes_before(keys, places[p] as int, places[q] as int));
            } else {
                assert(ordering::comes_before(keys, places[q] as int, places[p] as int));
            }
        }
    }
    ordering::law_stable_order_exists(keys);
    ordering::law_stable_order_is_unique(places, ordering::sorted_positions(keys), keys);
    let sorted = sorted_group(group, centers);
    let cut = cuts_of(gap, group);
    let n = sorted.len() as int;
    let all = runs(sorted, n, cut);
    if group.len() >= 3 && !tilted(group) {
        let (ra, rb) = law_runs_end_at_cuts(sorted, cut, a, b);
        assert((forall|m: int| a <= m < b ==> !#[trigger] cut(sorted[m] as int, sorted[m + 1] as int)) <==> (forall|
            m: int,
        |
            a <= m < b ==> !#[trigger] gap(group, group[places[m] as int] as int, group[places[m + 1] as int] as int))) by {
            if forall|m: int| a <= m < b ==> !#[trigger] cut(sorted[m] as int, sorted[m + 1] as int) {
                assert forall|m: int| a <= m < b implies !#[trigger] gap(
                    group,
                    group[places[m] as int] as int,
                    group[places[m + 1] as int] as int,
                ) by {
                    assert(!cut(sorted[m] as int, sorted[m + 1] as int));
                }
            }
            if forall|m: int|
                a <= m < b ==> !#[trigger] gap(group, group[places[m] as int] as int, group[places[m + 1] as int] as int) {
                assert forall|m: int| a <= m < b implies !#[trigger] cut(sorted[m] as int, sorted[m + 1] as int) by {
                    assert(!gap(group, group[places[m] as int] as int, group[places[m + 1] as int] as int));
                }
            }
        }
        if all.len() <= 1 {
            assert(ra == rb);
            assert(group.contains(group[places[a] as int]));
            assert(group.contains(group[places[b] as int]));
            (0, 0)
        } else {
            (ra, rb)
        }
    } else {
        (0, 0)
    }
}

proof fn lemma_gathered_holds(clusters: Seq<Seq<usize>>, roots: Seq<usize>, root: usize, k: int, x: usize)
    requires
        0 <= k <= roots.len(),
        roots.len() == clusters.len(),
    ensures
        gathered(clusters, roots, root, k).contains(x) <==> exists|c: int|
            0 <= c < k && roots[c] == root && (#[trigger] clusters[c]).contains(x),
    decreases k,
{
    if k > 0 {
        lemma_gathered_holds(clusters, roots, root, k - 1, x);
        let before = gathered(clusters, roots, root, k - 1);
        let after = gathered(clusters, roots, root, k);
        if before.contains(x) {
            let p = choose|p: int| 0 <= p < before.len() && before[p] == x;
            assert(after[p] == x);
        }
        if roots[k - 1] == root && clusters[k - 1].contains(x) {
            let last = clusters[k - 1];
            let p = choose|p: int| 0 <= p < last.len() && last[p] == x;
            assert(after[before.len() + p] == x);
        }
        if after.contains(x) {
            let p = choose|p: int| 0 <= p < after.len() && after[p] == x;
            if p < before.len() {
                assert(before[p] == x);
            } else {
                assert(clusters[k - 1][p - before.len()] == x);
            }
        }
    }
}

/// The class of each cluster is one of the groups: it holds the boxes of all
/// clusters of the class and no others. Its place is returned.
pub proof fn law_class_is_a_group(clusters: Seq<Seq<usize>>, roots: Seq<usize>, c: int) -> (at: int)
    requires
        roots.len() == clusters.len(),
        roots.len() <= usize::MAX,
        0 <= c < clusters.len(),
    ensures
        0 <= at < classes(clusters, roots, clusters.len() as int).len(),
        forall|x: usize| #[trigger]
            classes(clusters, roots, clusters.len() as int)[at].contains(x) <==> exists|d: int|
                0 <= d < clusters.len() && roots[d] == roots[c] && (#[trigger] clusters[d]).contains(x),
{
    let k = clusters.len() as int;
    lemma_class_has_leader(roots, k, c);
    let at = choose|p: int| 0 <= p < leaders(roots, k).len() && roots[#[trigger] leaders(roots, k)[p] as int] == roots[c];
    assert forall|x: usize| #[trigger]
        classes(clusters, roots, k)[at].contains(x) <==> exists|d: int|
            0 <= d < clusters.len() && roots[d] == roots[c] && (#[trigger] clusters[d]).contains(x) by {
        lemma_gathered_holds(clusters, roots, roots[c], k, x);
    }
    at
}

} // verus!
