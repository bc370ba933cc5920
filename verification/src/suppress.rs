//! Suppression: of items taken in order, one is kept unless an item kept
//! before it dominates it.

use vstd::prelude::*;

use crate::judge;

verus! {

/// Some item in `kept` dominates `item`.
pub open spec fn dominated(kept: Seq<usize>, item: int, rel: spec_fn(int, int) -> bool) -> bool {
    exists|p: int| 0 <= p < kept.len() && rel(#[trigger] kept[p] as int, item)
}

/// The items kept of the first `k` in `order`.
pub open spec fn survivors(order: Seq<usize>, k: int, rel: spec_fn(int, int) -> bool) -> Seq<usize>
    decreases k,
{
    if k <= 0 {
        Seq::empty()
    } else {
        let kept = survivors(order, k - 1, rel);
        if dominated(kept, order[k - 1] as int, rel) {
            kept
        } else {
            kept.push(order[k - 1])
        }
    }
}

/// Tells whether one of the items in `kept` dominates `item`.
pub fn is_dominated_by<F: Fn(usize, usize) -> bool>(kept: &Vec<usize>, item: usize, dominates: &F) -> (found: bool)
    requires
        forall|p: int| 0 <= p < kept.len() ==> #[trigger] call_requires(*dominates, (kept[p], item)),
    ensures
        forall|rel: spec_fn(int, int) -> bool| #[trigger]
            judge::decides(*dominates, rel) ==> found == dominated(kept@, item as int, rel),
{
    let mut p: usize = 0;
    while p < kept.len()
        invariant
            p <= kept.len(),
            forall|q: int| 0 <= q < kept.len() ==> #[trigger] call_requires(*dominates, (kept[q], item)),
            forall|rel: spec_fn(int, int) -> bool| #[trigger]
                judge::decides(*dominates, rel) ==> forall|q: int|
                    0 <= q < p ==> !rel(#[trigger] kept[q] as int, item as int),
        decreases kept.len() - p,
    {
        assert(call_requires(*dominates, (kept[p as int], item)));
        if dominates(kept[p], item) {
            proof {
                assert forall|rel: spec_fn(int, int) -> bool| #[trigger]
                    judge::decides(*dominates, rel) implies dominated(kept@, item as int, rel) by {
                    assert(rel(kept[p as int] as int, item as int));
                }
            }
            return true;
        }
        p = p + 1;
    }
    false
}

/// Keeps the items, taken in `order`, that no kept item dominates.
pub fn suppress<F: Fn(usize, usize) -> bool>(order: &Vec<usize>, n: usize, dominates: F) -> (kept: Vec<usize>)
    requires
        forall|p: int| 0 <= p < order.len() ==> (#[trigger] order[p]) < n,
        judge::callable(dominates, n as nat),
    ensures
        forall|p: int| 0 <= p < kept.len() ==> (#[trigger] kept[p]) < n,
        forall|rel: spec_fn(int, int) -> bool| #[trigger]
            judge::decides(dominates, rel) ==> kept@ == survivors(order@, order.len() as int, rel),
{
    let mut kept: Vec<usize> = Vec::new();
    let mut k: usize = 0;
    while k < order.len()
        invariant
            k <= order.len(),
            forall|p: int| 0 <= p < order.len() ==> (#[trigger] order[p]) < n,
            forall|p: int| 0 <= p < kept.len() ==> (#[trigger] kept[p]) < n,
            judge::callable(dominates, n as nat),
            forall|rel: spec_fn(int, int) -> bool| #[trigger]
                judge::decides(dominates, rel) ==> kept@ == survivors(order@, k as int, rel),
        decreases order.len() - k,
    {
        let item = order[k];
        if !is_dominated_by(&kept, item, &dominates) {
            kept.push(item);
        }
        k = k + 1;
    }
    kept
}

/// The survivors come from the first `k` items, in their order.
proof fn lemma_survivors_come_from(order: Seq<usize>, k: int, rel: spec_fn(int, int) -> bool, p: int) -> (at: int)
    requires
        0 <= k <= order.len(),
        0 <= p < survivors(order, k, rel).len(),
    ensures
        0 <= at < k,
        order[at] == survivors(order, k, rel)[p],
        survivors(order, at, rel) == survivors(order, k, rel).take(p),
        !dominated(survivors(order, at, rel), order[at] as int, rel),
    decreases k,
{
    let before = survivors(order, k - 1, rel);
    if p < before.len() {
        let at = lemma_survivors_come_from(order, k - 1, rel, p);
        assert(survivors(order, k, rel).take(p) =~= before.take(p));
        at
    } else {
        assert(survivors(order, k, rel).take(p) =~= before);
        k - 1
    }
}

proof fn lemma_survivors_grow(order: Seq<usize>, j: int, k: int, rel: spec_fn(int, int) -> bool)
    requires
        0 <= j <= k <= order.len(),
    ensures
        survivors(order, j, rel).is_prefix_of(survivors(order, k, rel)),
    decreases k,
{
    if j < k {
        lemma_survivors_grow(order, j, k - 1, rel);
    }
}

/// No survivor is dominated by one that was kept before it.
pub proof fn law_survivors_are_free(order: Seq<usize>, rel: spec_fn(int, int) -> bool, p: int, q: int)
    requires
        0 <= p < q < survivors(order, order.len() as int, rel).len(),
    ensures
        ({
            let kept = survivors(order, order.len() as int, rel);
            !rel(kept[p] as int, kept[q] as int)
        }),
{
    let kept = survivors(order, order.len() as int, rel);
    let at = lemma_survivors_come_from(order, order.len() as int, rel, q);
    assert(kept.take(q)[p] == kept[p]);
}

/// Every item is kept or dominated by a survivor.
pub proof fn law_dropped_are_dominated(order: Seq<usize>, rel: spec_fn(int, int) -> bool, k: int)
    requires
        0 <= k < order.len(),
    ensures
        ({
            let kept = survivors(order, order.len() as int, rel);
            kept.contains(order[k]) || dominated(kept, order[k] as int, rel)
        }),
{
    let kept = survivors(order, order.len() as int, rel);
    let before = survivors(order, k, rel);
    lemma_survivors_grow(order, k, order.len() as int, rel);
    lemma_survivors_grow(order, k + 1, order.len() as int, rel);
    if dominated(before, order[k] as int, rel) {
        let p = choose|p: int| 0 <= p < before.len() && rel(#[trigger] before[p] as int, order[k] as int);
        assert(kept[p] == before[p]);
    } else {
        let after = survivors(order, k + 1, rel);
        assert(after[before.len() as int] == order[k]);
        assert(kept[before.len() as int] == after[before.len() as int]);
    }
}

/// The first item is always kept, and it stays first.
pub proof fn law_first_survives(order: Seq<usize>, rel: spec_fn(int, int) -> bool)
    requires
        order.len() > 0,
    ensures
        survivors(order, order.len() as int, rel).len() > 0,
        survivors(order, order.len() as int, rel)[0] == order[0],
{
    let first = survivors(order, 1, rel);
    assert(!dominated(survivors(order, 0, rel), order[0] as int, rel));
    assert(first =~= seq![order[0]]);
    lemma_survivors_grow(order, 1, order.len() as int, rel);
    assert(survivors(order, order.len() as int, rel)[0] == first[0]);
}

/// Every survivor is one of the items.
pub proof fn law_survivors_are_items(order: Seq<usize>, rel: spec_fn(int, int) -> bool, p: int)
    requires
        0 <= p < survivors(order, order.len() as int, rel).len(),
    ensures
        order.contains(survivors(order, order.len() as int, rel)[p]),
{
    let at = lemma_survivors_come_from(order, order.len() as int, rel, p);
    assert(order[at] == survivors(order, order.len() as int, rel)[p]);
}

/// Suppressing the survivors once more drops none.
pub proof fn law_suppression_is_idempotent(order: Seq<usize>, rel: spec_fn(int, int) -> bool)
    ensures
        ({
            let kept = survivors(order, order.len() as int, rel);
            survivors(kept, kept.len() as int, rel) == kept
        }),
{
    let kept = survivors(order, order.len() as int, rel);
    lemma_free_items_survive(kept, kept.len() as int, rel, order);
    assert(kept.take(kept.len() as int) =~= kept);
}

proof fn lemma_free_items_survive(kept: Seq<usize>, k: int, rel: spec_fn(int, int) -> bool, order: Seq<usize>)
    requires
        kept == survivors(order, order.len() as int, rel),
        0 <= k <= kept.len(),
    ensures
        survivors(kept, k, rel) == kept.take(k),
    decreases k,
{
    if k > 0 {
        lemma_free_items_survive(kept, k - 1, rel, order);
        let before = kept.take(k - 1);
        assert forall|p: int| 0 <= p < before.len() implies !rel(#[trigger] before[p] as int, kept[k - 1] as int) by {
            law_survivors_are_free(order, rel, p, k - 1);
        }
        assert(before.push(kept[k - 1]) =~= kept.take(k));
    } else {
        assert(kept.take(0) =~= Seq::empty());
    }
}

/// The items of `s` whose positions `kept` names, in the order of `s`.
pub open spec fn retained<T>(s: Seq<T>, kept: Seq<usize>, k: int) -> Seq<T>
    decreases k,
{
    if k <= 0 {
        Seq::empty()
    } else if kept.contains((k - 1) as usize) {
        retained(s, kept, k - 1).push(s[k - 1])
    } else {
        retained(s, kept, k - 1)
    }
}

/// Keeps the texts whose positions `kept` names, in their own order.
pub fn retain_texts(texts: Vec<String>, kept: &Vec<usize>) -> (left: Vec<String>)
    ensures
        left@ == retained(texts@, kept@, texts.len() as int),
{
    let mut keep: Vec<bool> = Vec::new();
    while keep.len() < texts.len()
        invariant
            keep.len() <= texts.len(),
            forall|i: int| 0 <= i < keep.len() ==> !#[trigger] keep[i],
        decreases texts.len() - keep.len(),
    {
        keep.push(false);
    }
    let mut p: usize = 0;
    while p < kept.len()
        invariant
            p <= kept.len(),
            keep.len() == texts.len(),
            forall|i: int| 0 <= i < keep.len() ==> #[trigger] keep[i] == kept@.take(p as int).contains(i as usize),
        decreases kept.len() - p,
    {
        let at = kept[p];
        let ghost before = keep@;
        if at < keep.len() {
            keep.set(at, true);
        }
        proof {
            assert(kept@.take(p + 1) =~= kept@.take(p as int).push(at));
            assert forall|i: int| 0 <= i < keep.len() implies #[trigger] keep[i] == kept@.take(p + 1).contains(i as usize) by {
                let was = kept@.take(p as int);
                if was.contains(i as usize) {
                    let q = choose|q: int| 0 <= q < was.len() && was[q] == i as usize;
                    assert(was.push(at)[q] == i as usize);
                }
                if i == at {
                    assert(was.push(at)[p as int] == at);
                }
                assert(before[i] == was.contains(i as usize));
            }
        }
        p = p + 1;
    }
    assert(kept@.take(kept.len() as int) =~= kept@);
    let mut left: Vec<String> = Vec::new();
    let mut k: usize = 0;
    while k < texts.len()
        invariant
            k <= texts.len(),
            keep.len() == texts.len(),
            forall|i: int| 0 <= i < keep.len() ==> #[trigger] keep[i] == kept@.contains(i as usize),
            left@ == retained(texts@, kept@, k as int),
        decreases texts.len() - k,
    {
        if keep[k] {
            left.push(texts[k].clone());
        }
        k = k + 1;
    }
    left
}

/// Survivors come in the order of the items.
pub proof fn law_survivors_keep_order(order: Seq<usize>, rel: spec_fn(int, int) -> bool, p: int, q: int) -> (places: (
    int,
    int,
))
    requires
        0 <= p < q < survivors(order, order.len() as int, rel).len(),
    ensures
        0 <= places.0 < places.1 < order.len(),
        order[places.0] == survivors(order, order.len() as int, rel)[p],
        order[places.1] == survivors(order, order.len() as int, rel)[q],
{
    let kept = survivors(order, order.len() as int, rel);
    let b = lemma_survivors_come_from(order, order.len() as int, rel, q);
    assert(survivors(order, b, rel)[p] == kept.take(q)[p]);
    let a = lemma_survivors_come_from(order, b, rel, p);
    (a, b)
}

/// An item that is dropped is dominated by a survivor that comes before it.
pub proof fn law_dropped_are_dominated_earlier(order: Seq<usize>, rel: spec_fn(int, int) -> bool, k: int) -> (by: (
    int,
    int,
))
    requires
        0 <= k < order.len(),
        !survivors(order, order.len() as int, rel).contains(order[k]),
    ensures
        0 <= by.0 < survivors(order, order.len() as int, rel).len(),
        0 <= by.1 < k,
        order[by.1] == survivors(order, order.len() as int, rel)[by.0],
        rel(order[by.1] as int, order[k] as int),
{
    let kept = survivors(order, order.len() as int, rel);
    let before = survivors(order, k, rel);
    lemma_survivors_grow(order, k, order.len() as int, rel);
    lemma_survivors_grow(order, k + 1, order.len() as int, rel);
    if !dominated(before, order[k] as int, rel) {
        let after = survivors(order, k + 1, rel);
        assert(after[before.len() as int] == order[k]);
        assert(kept[before.len() as int] == order[k]);
    }
    let p = choose|p: int| 0 <= p < before.len() && rel(#[trigger] before[p] as int, order[k] as int);
    assert(kept[p] == before[p]);
    let a = lemma_survivors_come_from(order, k, rel, p);
    (p, a)
}

/// An item that is named is retained, behind those that are retained of the items
/// before it.
pub proof fn law_named_are_retained<T>(s: Seq<T>, kept: Seq<usize>, k: int, j: int)
    requires
        0 <= j < k <= s.len(),
        kept.contains(j as usize),
    ensures
        retained(s, kept, j).len() < retained(s, kept, k).len(),
        retained(s, kept, k)[retained(s, kept, j).len() as int] == s[j],
    decreases k,
{
    if j < k - 1 {
        law_named_are_retained(s, kept, k - 1, j);
    }
}

/// Nothing is retained but what is named.
pub proof fn law_retained_are_named<T>(s: Seq<T>, kept: Seq<usize>, k: int, p: int) -> (j: int)
    requires
        0 <= k <= s.len() <= usize::MAX,
        0 <= p < retained(s, kept, k).len(),
    ensures
        0 <= j < k,
        kept.contains(j as usize),
        retained(s, kept, k)[p] == s[j],
        retained(s, kept, j).len() == p,
    decreases k,
{
    if p < retained(s, kept, k - 1).len() {
        law_retained_are_named(s, kept, k - 1, p)
    } else {
        k - 1
    }
}

} // verus!
