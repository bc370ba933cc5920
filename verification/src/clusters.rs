//! Joining clusters of boxes into lines.

use vstd::prelude::*;

use crate::disjoint;
use crate::disjoint::DisjointSet;
use crate::judge;

verus! {

/// Whether two clusters are joined, given the classes so far.
pub type Decision = spec_fn(Seq<usize>, int, int) -> bool;

/// The decision that looks at the two clusters alone.
pub open spec fn regardless(rel: spec_fn(int, int) -> bool) -> Decision {
    |roots: Seq<usize>, i: int, j: int| rel(i, j)
}

/// Clusters below `k` that are in the class of `a` or in that of `b`.
pub open spec fn members(roots: Seq<usize>, a: int, b: int, k: int) -> Seq<usize>
    decreases k,
{
    if k <= 0 {
        Seq::empty()
    } else if roots[k - 1] == roots[a] || roots[k - 1] == roots[b] {
        members(roots, a, b, k - 1).push((k - 1) as usize)
    } else {
        members(roots, a, b, k - 1)
    }
}

/// The decision to join overlapping clusters whose common class still fits.
pub open spec fn if_fitting(overlap: spec_fn(int, int) -> bool, fits: spec_fn(Seq<usize>) -> bool) -> Decision {
    |roots: Seq<usize>, i: int, j: int| overlap(i, j) && fits(members(roots, i, j, roots.len() as int))
}

/// One pair is considered: `j` goes under `i` unless they are together already.
pub open spec fn pair_joined(roots: Seq<usize>, i: int, j: int, decision: Decision) -> Seq<usize> {
    if roots[i] != roots[j] && decision(roots, i, j) {
        disjoint::joined(roots, i, j)
    } else {
        roots
    }
}

/// The pairs `(i, i + 1)`, .., `(i, j - 1)` are considered in this order.
pub open spec fn row_joined(roots: Seq<usize>, i: int, j: int, decision: Decision) -> Seq<usize>
    decreases j - i,
{
    if j <= i + 1 {
        roots
    } else {
        pair_joined(row_joined(roots, i, j - 1, decision), i, j - 1, decision)
    }
}

/// The pairs whose first cluster is below `i` are considered in order.
pub open spec fn rows_joined(roots: Seq<usize>, i: int, decision: Decision) -> Seq<usize>
    decreases i,
{
    if i <= 0 {
        roots
    } else {
        row_joined(rows_joined(roots, i - 1, decision), i - 1, roots.len() as int, decision)
    }
}

/// All pairs are considered once, in lexicographic order.
pub open spec fn all_joined(roots: Seq<usize>, decision: Decision) -> Seq<usize> {
    rows_joined(roots, roots.len() as int, decision)
}

proof fn lemma_row_len(roots: Seq<usize>, i: int, j: int, decision: Decision)
    ensures
        row_joined(roots, i, j, decision).len() == roots.len(),
    decreases j - i,
{
    if j > i + 1 {
        lemma_row_len(roots, i, j - 1, decision);
    }
}

proof fn lemma_rows_len(roots: Seq<usize>, i: int, decision: Decision)
    ensures
        rows_joined(roots, i, decision).len() == roots.len(),
    decreases i,
{
    if i > 0 {
        lemma_rows_len(roots, i - 1, decision);
        lemma_row_len(rows_joined(roots, i - 1, decision), i - 1, roots.len() as int, decision);
    }
}

/// Joining changes no number of clusters.
pub proof fn lemma_all_joined_len(roots: Seq<usize>, decision: Decision)
    ensures
        all_joined(roots, decision).len() == roots.len(),
{
    lemma_rows_len(roots, roots.len() as int, decision);
}

/// Joins every two clusters that the judge finds on the same line.
pub fn join_same_line<F: Fn(usize, usize) -> bool>(set: &mut DisjointSet, n: usize, same_line: F)
    requires
        old(set).wf(),
        old(set)@.len() == n,
        judge::callable(same_line, n as nat),
    ensures
        final(set).wf(),
        final(set)@.len() == n,
        forall|rel: spec_fn(int, int) -> bool| #[trigger]
            judge::decides(same_line, rel) ==> final(set)@ == all_joined(old(set)@, regardless(rel)),
{
    let ghost start = set@;
    let mut i: usize = 0;
    while i < n
        invariant
            i <= n,
            set.wf(),
            set@.len() == n,
            start.len() == n,
            judge::callable(same_line, n as nat),
            forall|rel: spec_fn(int, int) -> bool| #[trigger]
                judge::decides(same_line, rel) ==> set@ == rows_joined(start, i as int, regardless(rel)),
        decreases n - i,
    {
        let ghost before = set@;
        let mut j: usize = i + 1;
        while j < n
            invariant
                i < n,
                i + 1 <= j <= n,
                set.wf(),
                set@.len() == n,
                before.len() == n,
                judge::callable(same_line, n as nat),
                forall|rel: spec_fn(int, int) -> bool| #[trigger]
                    judge::decides(same_line, rel) ==> set@ == row_joined(before, i as int, j as int, regardless(rel)),
            decreases n - j,
        {
            proof {
                set.lemma_wf_labels();
            }
            let ri = set.find(i);
            let rj = set.find(j);
            if ri != rj {
                if same_line(i, j) {
                    set.link(ri, rj);
                }
            }
            j = j + 1;
        }
        i = i + 1;
    }
}

/// Clusters that are in the class of representative `ra` or of `rb`.
fn list_members(set: &mut DisjointSet, n: usize, ra: usize, rb: usize) -> (out: Vec<usize>)
    requires
        old(set).wf(),
        old(set)@.len() == n,
        ra < n,
        rb < n,
        old(set)@[ra as int] == ra,
        old(set)@[rb as int] == rb,
    ensures
        final(set).wf(),
        final(set)@ == old(set)@,
        out@ == members(old(set)@, ra as int, rb as int, n as int),
{
    let mut out: Vec<usize> = Vec::new();
    let mut k: usize = 0;
    while k < n
        invariant
            k <= n,
            set.wf(),
            set@ == old(set)@,
            set@.len() == n,
            ra < n,
            rb < n,
            set@[ra as int] == ra,
            set@[rb as int] == rb,
            out@ == members(set@, ra as int, rb as int, k as int),
        decreases n - k,
    {
        let rk = set.find(k);
        if rk == ra || rk == rb {
            out.push(k);
        }
        k = k + 1;
    }
    out
}

proof fn lemma_members_by_class(roots: Seq<usize>, a: int, b: int, c: int, d: int, k: int)
    requires
        roots[a] == roots[c],
        roots[b] == roots[d],
    ensures
        members(roots, a, b, k) == members(roots, c, d, k),
    decreases k,
{
    if k > 0 {
        lemma_members_by_class(roots, a, b, c, d, k - 1);
    }
}

/// Joins every two overlapping clusters, as long as the class that results
/// still fits into one line. `fits` is asked about the clusters of that class.
pub fn join_overlapping<F: Fn(usize, usize) -> bool, G: Fn(&Vec<usize>) -> bool>(
    set: &mut DisjointSet,
    n: usize,
    overlap: F,
    fits: G,
)
    requires
        old(set).wf(),
        old(set)@.len() == n,
        judge::callable(overlap, n as nat),
        judge::group_callable(fits),
    ensures
        final(set).wf(),
        final(set)@.len() == n,
        forall|rel: spec_fn(int, int) -> bool, room: spec_fn(Seq<usize>) -> bool|
            #[trigger] judge::decides(overlap, rel) && #[trigger] judge::group_decides(fits, room) ==> final(set)@
                == all_joined(old(set)@, if_fitting(rel, room)),
{
    let ghost start = set@;
    let mut i: usize = 0;
    while i < n
        invariant
            i <= n,
            set.wf(),
            set@.len() == n,
            start.len() == n,
            judge::callable(overlap, n as nat),
            judge::group_callable(fits),
            forall|rel: spec_fn(int, int) -> bool, room: spec_fn(Seq<usize>) -> bool|
                #[trigger] judge::decides(overlap, rel) && #[trigger] judge::group_decides(fits, room) ==> set@
                    == rows_joined(start, i as int, if_fitting(rel, room)),
        decreases n - i,
    {
        let ghost before = set@;
        let mut j: usize = i + 1;
        while j < n
            invariant
                i < n,
                i + 1 <= j <= n,
                set.wf(),
                set@.len() == n,
                before.len() == n,
                judge::callable(overlap, n as nat),
                judge::group_callable(fits),
                forall|rel: spec_fn(int, int) -> bool, room: spec_fn(Seq<usize>) -> bool|
                    #[trigger] judge::decides(overlap, rel) && #[trigger] judge::group_decides(fits, room) ==> set@
                        == row_joined(before, i as int, j as int, if_fitting(rel, room)),
            decreases n - j,
        {
            proof {
                set.lemma_wf_labels();
            }
            let ri = set.find(i);
            let rj = set.find(j);
            if ri != rj {
                if overlap(i, j) {
                    let class = list_members(set, n, ri, rj);
                    proof {
                        lemma_members_by_class(set@, ri as int, rj as int, i as int, j as int, n as int);
                    }
                    if fits(&class) {
                        set.link(ri, rj);
                    }
                }
            }
            j = j + 1;
        }
        i = i + 1;
    }
}

/// A cluster of at most this many boxes is small.
pub const SMALL: usize = 3;

/// The number of boxes in the clusters below `k` that are in the class of `a`.
pub open spec fn class_size(roots: Seq<usize>, sizes: Seq<usize>, a: int, k: int) -> nat
    decreases k,
{
    if k <= 0 {
        0
    } else {
        class_size(roots, sizes, a, k - 1) + (if roots[k - 1] == roots[a] { sizes[k - 1] as nat } else { 0 })
    }
}

/// Whether cluster `b` may take in the small cluster `a`: it is in another
/// class, has no fewer than three boxes, and lies along the same line.
pub open spec fn is_host(roots: Seq<usize>, sizes: Seq<usize>, rel: spec_fn(int, int) -> bool, a: int, b: int) -> bool {
    sizes[b] >= SMALL && roots[b] != roots[a] && rel(a, b)
}

/// The first host of `a` at or after `b`.
pub open spec fn first_host(roots: Seq<usize>, sizes: Seq<usize>, rel: spec_fn(int, int) -> bool, a: int, b: int) -> Option<int>
    decreases roots.len() - b,
{
    if b >= roots.len() {
        None
    } else if is_host(roots, sizes, rel, a, b) {
        Some(b)
    } else {
        first_host(roots, sizes, rel, a, b + 1)
    }
}

/// Cluster `a` is considered: if it is small, and so is its class, the class
/// goes under its first host.
pub open spec fn one_absorbed(roots: Seq<usize>, sizes: Seq<usize>, rel: spec_fn(int, int) -> bool, a: int) -> Seq<usize> {
    if sizes[a] > SMALL || class_size(roots, sizes, a, roots.len() as int) > SMALL {
        roots
    } else {
        match first_host(roots, sizes, rel, a, 0) {
            Some(b) => disjoint::joined(roots, b, a),
            None => roots,
        }
    }
}

/// The clusters below `k` are considered in order.
pub open spec fn absorbed(roots: Seq<usize>, sizes: Seq<usize>, rel: spec_fn(int, int) -> bool, k: int) -> Seq<usize>
    decreases k,
{
    if k <= 0 {
        roots
    } else {
        one_absorbed(absorbed(roots, sizes, rel, k - 1), sizes, rel, k - 1)
    }
}

/// Taking in small classes changes no number of clusters.
pub proof fn lemma_absorbed_len(roots: Seq<usize>, sizes: Seq<usize>, rel: spec_fn(int, int) -> bool, k: int)
    ensures
        absorbed(roots, sizes, rel, k).len() == roots.len(),
    decreases k,
{
    if k > 0 {
        lemma_absorbed_len(roots, sizes, rel, k - 1);
    }
}

fn class_is_small(set: &mut DisjointSet, sizes: &Vec<usize>, a: usize, root: usize) -> (small: bool)
    requires
        old(set).wf(),
        old(set)@.len() == sizes.len(),
        a < sizes.len(),
        root == old(set)@[a as int],
    ensures
        final(set).wf(),
        final(set)@ == old(set)@,
        small == (class_size(old(set)@, sizes@, a as int, sizes.len() as int) <= SMALL),
{
    let mut total: usize = 0;
    let mut k: usize = 0;
    while k < sizes.len()
        invariant
            k <= sizes.len(),
            set.wf(),
            set@ == old(set)@,
            set@.len() == sizes.len(),
            a < sizes.len(),
            root == set@[a as int],
            total <= SMALL ==> total == class_size(set@, sizes@, a as int, k as int),
            total > SMALL ==> class_size(set@, sizes@, a as int, k as int) > SMALL,
        decreases sizes.len() - k,
    {
        let rk = set.find(k);
        if rk == root {
            total = total.saturating_add(sizes[k]);
        }
        k = k + 1;
    }
    total <= SMALL
}

/// Puts each small class under the first larger cluster that lies along the
/// same line.
pub fn absorb_small<F: Fn(usize, usize) -> bool>(set: &mut DisjointSet, sizes: &Vec<usize>, along: F)
    requires
        old(set).wf(),
        old(set)@.len() == sizes.len(),
        judge::callable(along, sizes.len() as nat),
    ensures
        final(set).wf(),
        final(set)@.len() == sizes.len(),
        forall|rel: spec_fn(int, int) -> bool| #[trigger]
            judge::decides(along, rel) ==> final(set)@ == absorbed(old(set)@, sizes@, rel, sizes.len() as int),
{
    let n = sizes.len();
    let ghost start = set@;
    let mut a: usize = 0;
    while a < n
        invariant
            a <= n,
            n == sizes.len(),
            set.wf(),
            set@.len() == n,
            judge::callable(along, n as nat),
            forall|rel: spec_fn(int, int) -> bool| #[trigger]
                judge::decides(along, rel) ==> set@ == absorbed(start, sizes@, rel, a as int),
        decreases n - a,
    {
        proof {
            set.lemma_wf_labels();
        }
        let ghost before = set@;
        if sizes[a] <= SMALL {
            let ra = set.find(a);
            if class_is_small(set, sizes, a, ra) {
                let mut b: usize = 0;
                let mut done = false;
                while b < n && !done
                    invariant
                        a < n,
                        b <= n,
                        n == sizes.len(),
                        set.wf(),
                        before.len() == n,
                        set@.len() == n,
                        disjoint::is_labelling(before),
                        ra == before[a as int],
                        judge::callable(along, n as nat),
                        !done ==> set@ == before,
                        !done ==> forall|rel: spec_fn(int, int) -> bool| #[trigger]
                            judge::decides(along, rel) ==> first_host(before, sizes@, rel, a as int, 0) == first_host(
                                before,
                                sizes@,
                                rel,
                                a as int,
                                b as int,
                            ),
                        done ==> forall|rel: spec_fn(int, int) -> bool| #[trigger]
                            judge::decides(along, rel) ==> {
                                &&& first_host(before, sizes@, rel, a as int, 0) is Some
                                &&& set@ == disjoint::joined(
                                    before,
                                    first_host(before, sizes@, rel, a as int, 0).unwrap(),
                                    a as int,
                                )
                            },
                    decreases n - b,
                {
                    if sizes[b] >= SMALL {
                        let rb = set.find(b);
                        if ra != rb {
                            if along(a, b) {
                                set.link(rb, ra);
                                done = true;
                                assert(set@ =~= disjoint::joined(before, b as int, a as int));
                            }
                        }
                    }
                    b = b + 1;
                }
            }
        }
        a = a + 1;
    }
}

/// Items that share a class in `fine` share one in `coarse`.
pub open spec fn coarsens(coarse: Seq<usize>, fine: Seq<usize>) -> bool {
    &&& coarse.len() == fine.len()
    &&& forall|a: int, b: int|
        0 <= a < fine.len() && 0 <= b < fine.len() && #[trigger] fine[a] == #[trigger] fine[b] ==> coarse[a] == coarse[b]
}

/// `label` is constant on the classes of `roots`.
pub open spec fn respects(label: Seq<int>, roots: Seq<usize>) -> bool {
    &&& label.len() == roots.len()
    &&& forall|a: int, b: int|
        0 <= a < roots.len() && 0 <= b < roots.len() && #[trigger] roots[a] == #[trigger] roots[b] ==> label[a] == label[b]
}

/// `label` is constant on related clusters.
pub open spec fn honours(label: Seq<int>, rel: spec_fn(int, int) -> bool) -> bool {
    forall|i: int, j: int| 0 <= i < j < label.len() && #[trigger] rel(i, j) ==> label[i] == label[j]
}

proof fn lemma_pair_coarsens(roots: Seq<usize>, i: int, j: int, decision: Decision)
    requires
        disjoint::is_labelling(roots),
        0 <= i < roots.len(),
        0 <= j < roots.len(),
    ensures
        disjoint::is_labelling(pair_joined(roots, i, j, decision)),
        coarsens(pair_joined(roots, i, j, decision), roots),
{
    let out = pair_joined(roots, i, j, decision);
    assert forall|k: int| 0 <= k < out.len() implies out[#[trigger] out[k] as int] == out[k] by {
        assert(roots[roots[k] as int] == roots[k]);
        assert(roots[roots[i] as int] == roots[i]);
    }
}

proof fn lemma_row_coarsens(roots: Seq<usize>, i: int, j: int, decision: Decision)
    requires
        disjoint::is_labelling(roots),
        0 <= i < j <= roots.len(),
    ensures
        disjoint::is_labelling(row_joined(roots, i, j, decision)),
        coarsens(row_joined(roots, i, j, decision), roots),
    decreases j - i,
{
    if j > i + 1 {
        lemma_row_coarsens(roots, i, j - 1, decision);
        lemma_pair_coarsens(row_joined(roots, i, j - 1, decision), i, j - 1, decision);
    }
}

/// Joining pairs keeps a labelling a labelling and never parts two clusters.
pub proof fn law_joining_coarsens(roots: Seq<usize>, i: int, decision: Decision)
    requires
        disjoint::is_labelling(roots),
        0 <= i <= roots.len(),
    ensures
        disjoint::is_labelling(rows_joined(roots, i, decision)),
        coarsens(rows_joined(roots, i, decision), roots),
    decreases i,
{
    if i > 0 {
        law_joining_coarsens(roots, i - 1, decision);
        let mid = rows_joined(roots, i - 1, decision);
        lemma_row_coarsens(mid, i - 1, roots.len() as int, decision);
    }
}

proof fn lemma_row_joins_related(roots: Seq<usize>, i: int, j: int, k: int, rel: spec_fn(int, int) -> bool)
    requires
        disjoint::is_labelling(roots),
        0 <= i < k < j <= roots.len(),
        rel(i, k),
    ensures
        row_joined(roots, i, j, regardless(rel))[i] == row_joined(roots, i, j, regardless(rel))[k],
    decreases j - i,
{
    let mid = row_joined(roots, i, j - 1, regardless(rel));
    lemma_row_coarsens(roots, i, j - 1, regardless(rel));
    lemma_pair_coarsens(mid, i, j - 1, regardless(rel));
    if k < j - 1 {
        lemma_row_joins_related(roots, i, j - 1, k, rel);
        assert(mid[i] == mid[k]);
    }
}

proof fn lemma_rows_join_related(roots: Seq<usize>, h: int, i: int, k: int, rel: spec_fn(int, int) -> bool)
    requires
        disjoint::is_labelling(roots),
        0 <= i < h <= roots.len(),
        i < k < roots.len(),
        rel(i, k),
    ensures
        rows_joined(roots, h, regardless(rel))[i] == rows_joined(roots, h, regardless(rel))[k],
    decreases h,
{
    law_joining_coarsens(roots, h - 1, regardless(rel));
    let mid = rows_joined(roots, h - 1, regardless(rel));
    if i < h - 1 {
        lemma_rows_join_related(roots, h - 1, i, k, rel);
        lemma_row_coarsens(mid, h - 1, roots.len() as int, regardless(rel));
        assert(mid[i] == mid[k]);
    } else {
        lemma_row_joins_related(mid, i, roots.len() as int, k, rel);
    }
}

proof fn lemma_row_respected(label: Seq<int>, roots: Seq<usize>, i: int, j: int, rel: spec_fn(int, int) -> bool)
    requires
        disjoint::is_labelling(roots),
        respects(label, roots),
        honours(label, rel),
        0 <= i < j <= roots.len(),
    ensures
        respects(label, row_joined(roots, i, j, regardless(rel))),
    decreases j - i,
{
    if j > i + 1 {
        lemma_row_respected(label, roots, i, j - 1, rel);
        let mid = row_joined(roots, i, j - 1, regardless(rel));
        let out = pair_joined(mid, i, j - 1, regardless(rel));
        assert forall|a: int, b: int|
            0 <= a < out.len() && 0 <= b < out.len() && #[trigger] out[a] == #[trigger] out[b] implies label[a] == label[b] by {
            if mid[i] != mid[j - 1] && rel(i, j - 1) {
                assert(label[i] == label[j - 1]);
                if mid[a] == mid[j - 1] {
                    assert(label[a] == label[j - 1]);
                }
                if mid[b] == mid[j - 1] {
                    assert(label[b] == label[j - 1]);
                }
                if mid[a] == mid[i] {
                    assert(label[a] == label[i]);
                }
                if mid[b] == mid[i] {
                    assert(label[b] == label[i]);
                }
            }
        }
    }
}

proof fn lemma_rows_respected(label: Seq<int>, roots: Seq<usize>, h: int, rel: spec_fn(int, int) -> bool)
    requires
        disjoint::is_labelling(roots),
        respects(label, roots),
        honours(label, rel),
        0 <= h <= roots.len(),
    ensures
        respects(label, rows_joined(roots, h, regardless(rel))),
    decreases h,
{
    if h > 0 {
        lemma_rows_respected(label, roots, h - 1, rel);
        law_joining_coarsens(roots, h - 1, regardless(rel));
        lemma_row_respected(label, rows_joined(roots, h - 1, regardless(rel)), h - 1, roots.len() as int, rel);
    }
}

/// Joining all related pairs gives the finest partition, coarser than the one
/// before, in which related clusters are together: related clusters share a
/// class, and clusters that share a class cannot be told apart by any label
/// that is constant on the old classes and on related clusters.
pub proof fn law_joined_is_finest(roots: Seq<usize>, rel: spec_fn(int, int) -> bool)
    requires
        disjoint::is_labelling(roots),
    ensures
        coarsens(all_joined(roots, regardless(rel)), roots),
        forall|i: int, j: int|
            0 <= i < j < roots.len() && #[trigger] rel(i, j) ==> all_joined(roots, regardless(rel))[i] == all_joined(
                roots,
                regardless(rel),
            )[j],
        forall|label: Seq<int>|
            #[trigger] respects(label, roots) && honours(label, rel) ==> respects(label, all_joined(roots, regardless(rel))),
{
    law_joining_coarsens(roots, roots.len() as int, regardless(rel));
    assert forall|i: int, j: int| 0 <= i < j < roots.len() && #[trigger] rel(i, j) implies all_joined(
        roots,
        regardless(rel),
    )[i] == all_joined(roots, regardless(rel))[j] by {
        lemma_rows_join_related(roots, roots.len() as int, i, j, rel);
    }
    assert forall|label: Seq<int>| #[trigger] respects(label, roots) && honours(label, rel) implies respects(
        label,
        all_joined(roots, regardless(rel)),
    ) by {
        lemma_rows_respected(label, roots, roots.len() as int, rel);
    }
}

proof fn lemma_settled_row(roots: Seq<usize>, i: int, j: int, rel: spec_fn(int, int) -> bool)
    requires
        0 <= i < j <= roots.len(),
        forall|a: int, b: int| 0 <= a < b < roots.len() && #[trigger] rel(a, b) ==> roots[a] == roots[b],
    ensures
        row_joined(roots, i, j, regardless(rel)) == roots,
    decreases j - i,
{
    if j > i + 1 {
        lemma_settled_row(roots, i, j - 1, rel);
    }
}

proof fn lemma_settled_rows(roots: Seq<usize>, h: int, rel: spec_fn(int, int) -> bool)
    requires
        0 <= h <= roots.len(),
        forall|a: int, b: int| 0 <= a < b < roots.len() && #[trigger] rel(a, b) ==> roots[a] == roots[b],
    ensures
        rows_joined(roots, h, regardless(rel)) == roots,
    decreases h,
{
    if h > 0 {
        lemma_settled_rows(roots, h - 1, rel);
        lemma_settled_row(roots, h - 1, roots.len() as int, rel);
    }
}

/// Joining all related pairs a second time changes nothing.
pub proof fn law_joining_is_idempotent(roots: Seq<usize>, rel: spec_fn(int, int) -> bool)
    requires
        disjoint::is_labelling(roots),
    ensures
        all_joined(all_joined(roots, regardless(rel)), regardless(rel)) == all_joined(roots, regardless(rel)),
{
    law_joined_is_finest(roots, rel);
    lemma_settled_rows(all_joined(roots, regardless(rel)), roots.len() as int, rel);
}

/// The number of classes that have their representative below `k`.
spec fn class_count(roots: Seq<usize>, k: int) -> nat
    decreases k,
{
    if k <= 0 {
        0
    } else {
        class_count(roots, k - 1) + (if roots[k - 1] == k - 1 { 1nat } else { 0 })
    }
}

proof fn lemma_joined_count(roots: Seq<usize>, i: int, j: int, k: int)
    requires
        disjoint::is_labelling(roots),
        0 <= i < roots.len(),
        0 <= j < roots.len(),
        roots[i] != roots[j],
        0 <= k <= roots.len(),
    ensures
        class_count(roots, k) == class_count(disjoint::joined(roots, i, j), k) + (if roots[j] < k { 1nat } else { 0 }),
    decreases k,
{
    if k > 0 {
        lemma_joined_count(roots, i, j, k - 1);
        assert(roots[roots[i] as int] == roots[i]);
        assert(roots[roots[j] as int] == roots[j]);
    }
}

/// Joins every two clusters that the judge finds to be parts of one text
/// line, until a whole round joins none.
pub fn merge_lines<F: Fn(usize, usize) -> bool>(set: &mut DisjointSet, n: usize, one_line: F)
    requires
        old(set).wf(),
        old(set)@.len() == n,
        judge::callable(one_line, n as nat),
    ensures
        final(set).wf(),
        final(set)@.len() == n,
        forall|rel: spec_fn(int, int) -> bool| #[trigger]
            judge::decides(one_line, rel) ==> final(set)@ == all_joined(old(set)@, regardless(rel)),
{
    let ghost start = set@;
    let mut merged_any = true;
    let ghost mut first = true;
    proof {
        set.lemma_wf_labels();
    }
    while merged_any
        invariant
            set.wf(),
            set@.len() == n,
            start.len() == n,
            disjoint::is_labelling(start),
            judge::callable(one_line, n as nat),
            first ==> set@ == start && merged_any,
            !first ==> forall|rel: spec_fn(int, int) -> bool| #[trigger]
                judge::decides(one_line, rel) ==> set@ == all_joined(start, regardless(rel)),
        decreases class_count(set@, n as int), (if merged_any { 1int } else { 0int }),
    {
        merged_any = false;
        let ghost round = set@;
        let mut i: usize = 0;
        proof {
            set.lemma_wf_labels();
        }
        while i < n
            invariant
                i <= n,
                set.wf(),
                set@.len() == n,
                round.len() == n,
                judge::callable(one_line, n as nat),
                !merged_any ==> set@ == round,
                merged_any ==> class_count(set@, n as int) < class_count(round, n as int),
                forall|rel: spec_fn(int, int) -> bool| #[trigger]
                    judge::decides(one_line, rel) ==> set@ == rows_joined(round, i as int, regardless(rel)),
            decreases n - i,
        {
            let ghost before = set@;
            proof {
                set.lemma_wf_labels();
            }
            let ri = set.find_halving(i);
            let mut j: usize = i + 1;
            while j < n
                invariant
                    i < n,
                    i + 1 <= j <= n,
                    set.wf(),
                    set@.len() == n,
                    before.len() == n,
                    ri == set@[i as int],
                    ri < n,
                    set@[ri as int] == ri,
                    judge::callable(one_line, n as nat),
                    !merged_any ==> set@ == round,
                    merged_any ==> class_count(set@, n as int) < class_count(round, n as int),
                    forall|rel: spec_fn(int, int) -> bool| #[trigger]
                        judge::decides(one_line, rel) ==> set@ == row_joined(before, i as int, j as int, regardless(rel)),
                decreases n - j,
            {
                proof {
                    set.lemma_wf_labels();
                }
                let ghost now = set@;
                let rj = set.find_halving(j);
                if ri != rj {
                    if one_line(i, j) {
                        set.link(ri, rj);
                        merged_any = true;
                        proof {
                            lemma_joined_count(now, ri as int, rj as int, n as int);
                        }
                    }
                }
                j = j + 1;
            }
            i = i + 1;
        }
        proof {
            assert forall|rel: spec_fn(int, int) -> bool| #[trigger] judge::decides(one_line, rel) implies set@ == all_joined(
                start,
                regardless(rel),
            ) by {
                if !first {
                    law_joining_is_idempotent(start, rel);
                }
            }
            first = false;
        }
    }
}

proof fn lemma_class_size(roots: Seq<usize>, sizes: Seq<usize>, a: int, k: int)
    requires
        0 <= k <= roots.len(),
    ensures
        forall|j: int| 0 <= j < k && #[trigger] roots[j] == roots[a] ==> sizes[j] <= class_size(roots, sizes, a, k),
    decreases k,
{
    if k > 0 {
        lemma_class_size(roots, sizes, a, k - 1);
    }
}

proof fn lemma_first_host(roots: Seq<usize>, sizes: Seq<usize>, rel: spec_fn(int, int) -> bool, a: int, b: int)
    requires
        0 <= b <= roots.len(),
    ensures
        match first_host(roots, sizes, rel, a, b) {
            Some(h) => b <= h < roots.len() && is_host(roots, sizes, rel, a, h) && forall|k: int|
                b <= k < h ==> !#[trigger] is_host(roots, sizes, rel, a, k),
            None => forall|k: int| b <= k < roots.len() ==> !#[trigger] is_host(roots, sizes, rel, a, k),
        },
    decreases roots.len() - b,
{
    if b < roots.len() && !is_host(roots, sizes, rel, a, b) {
        lemma_first_host(roots, sizes, rel, a, b + 1);
    }
}

/// What becomes of a small cluster, one in a class of at most three boxes: its class
/// goes to the class of the first cluster that has three boxes or more, is in another
/// class and takes it in; all other classes stay as they are. Without such a cluster,
/// and for a cluster that is not small, nothing changes.
pub proof fn law_small_cluster_joins_its_first_host(
    roots: Seq<usize>,
    sizes: Seq<usize>,
    rel: spec_fn(int, int) -> bool,
    a: int,
    b: int,
)
    requires
        0 <= a < roots.len(),
        sizes.len() == roots.len(),
    ensures
        sizes[a] > 3 ==> one_absorbed(roots, sizes, rel, a) == roots,
        (forall|k: int| 0 <= k < roots.len() ==> !(sizes[k] >= 3 && roots[k] != roots[a] && #[trigger] rel(a, k)))
            ==> one_absorbed(roots, sizes, rel, a) == roots,
        class_size(roots, sizes, a, roots.len() as int) <= 3 && 0 <= b < roots.len() && sizes[b] >= 3 && roots[b]
            != roots[a] && rel(a, b) && (forall|k: int|
            0 <= k < b ==> !(sizes[k] >= 3 && roots[k] != roots[a] && #[trigger] rel(a, k))) ==> {
            let out = one_absorbed(roots, sizes, rel, a);
            &&& out.len() == roots.len()
            &&& forall|k: int| 0 <= k < roots.len() && roots[k] == roots[a] ==> #[trigger] out[k] == roots[b]
            &&& forall|k: int| 0 <= k < roots.len() && roots[k] != roots[a] ==> #[trigger] out[k] == roots[k]
        },
{
    lemma_first_host(roots, sizes, rel, a, 0);
    lemma_class_size(roots, sizes, a, roots.len() as int);
    assert(roots[a] == roots[a]);
    match first_host(roots, sizes, rel, a, 0) {
        Some(h) => {
            assert(is_host(roots, sizes, rel, a, h));
            assert(rel(a, h));
            if 0 <= b < h && sizes[b] >= 3 && roots[b] != roots[a] && rel(a, b) {
                assert(is_host(roots, sizes, rel, a, b));
            }
        },
        None => {
            if 0 <= b < roots.len() {
                assert(!is_host(roots, sizes, rel, a, b));
            }
        },
    }
}

proof fn lemma_members(roots: Seq<usize>, a: int, b: int, k: int, x: usize)
    requires
        0 <= k <= roots.len() <= usize::MAX,
    ensures
        members(roots, a, b, k).contains(x) <==> x < k && (roots[x as int] == roots[a] || roots[x as int] == roots[b]),
    decreases k,
{
    if k > 0 {
        lemma_members(roots, a, b, k - 1, x);
        let before = members(roots, a, b, k - 1);
        let after = members(roots, a, b, k);
        if before.contains(x) {
            let p = choose|p: int| 0 <= p < before.len() && before[p] == x;
            assert(after[p] == x);
        }
        if after.len() > before.len() {
            assert(after[before.len() as int] == k - 1);
        }
        if after.contains(x) {
            let p = choose|p: int| 0 <= p < after.len() && after[p] == x;
            if p < before.len() {
                assert(before[p] == x);
            }
        }
    }
}

proof fn lemma_same_members(roots: Seq<usize>, i: int, j: int, out: Seq<usize>, a: int, k: int)
    requires
        0 <= k <= roots.len(),
        out.len() == roots.len(),
        forall|x: int|
            0 <= x < roots.len() ==> (#[trigger] out[x] == out[a] <==> roots[x] == roots[i] || roots[x] == roots[j]),
    ensures
        members(out, a, a, k) == members(roots, i, j, k),
    decreases k,
{
    if k > 0 {
        lemma_same_members(roots, i, j, out, a, k - 1);
        assert(out[k - 1] == out[a] <==> roots[k - 1] == roots[i] || roots[k - 1] == roots[j]);
    }
}

/// The class of `a` is as it was, or fits.
spec fn settled(start: Seq<usize>, roots: Seq<usize>, fits: spec_fn(Seq<usize>) -> bool, a: int) -> bool {
    ||| forall|x: int| 0 <= x < roots.len() ==> (#[trigger] roots[x] == roots[a] <==> start[x] == start[a])
    ||| fits(members(roots, a, a, roots.len() as int))
}

proof fn lemma_pair_settled(
    start: Seq<usize>,
    roots: Seq<usize>,
    i: int,
    j: int,
    overlap: spec_fn(int, int) -> bool,
    fits: spec_fn(Seq<usize>) -> bool,
)
    requires
        start.len() == roots.len(),
        0 <= i < roots.len(),
        0 <= j < roots.len(),
        disjoint::is_labelling(roots),
        forall|a: int| 0 <= a < roots.len() ==> #[trigger] settled(start, roots, fits, a),
    ensures
        ({
            let out = pair_joined(roots, i, j, if_fitting(overlap, fits));
            forall|a: int| 0 <= a < out.len() ==> #[trigger] settled(start, out, fits, a)
        }),
{
    let out = pair_joined(roots, i, j, if_fitting(overlap, fits));
    let n = roots.len() as int;
    if roots[i] != roots[j] && overlap(i, j) && fits(members(roots, i, j, n)) {
        assert forall|a: int| 0 <= a < out.len() implies #[trigger] settled(start, out, fits, a) by {
            assert(settled(start, roots, fits, a));
            if roots[a] == roots[i] || roots[a] == roots[j] {
                assert forall|x: int| 0 <= x < n implies (#[trigger] out[x] == out[a] <==> roots[x] == roots[i] || roots[x]
                    == roots[j]) by {}
                lemma_same_members(roots, i, j, out, a, n);
            } else {
                assert forall|x: int| 0 <= x < n implies (#[trigger] out[x] == out[a] <==> roots[x] == roots[a]) by {}
                assert forall|x: int| 0 <= x < n implies (#[trigger] out[x] == out[a] <==> roots[x] == roots[a] || roots[x]
                    == roots[a]) by {}
                lemma_same_members(roots, a, a, out, a, n);
                if forall|x: int| 0 <= x < n ==> (#[trigger] roots[x] == roots[a] <==> start[x] == start[a]) {
                    assert forall|x: int| 0 <= x < n implies (#[trigger] out[x] == out[a] <==> start[x] == start[a]) by {
                        assert(roots[x] == roots[a] <==> start[x] == start[a]);
                    }
                }
            }
        }
    }
}

proof fn lemma_row_settled(
    start: Seq<usize>,
    roots: Seq<usize>,
    i: int,
    j: int,
    overlap: spec_fn(int, int) -> bool,
    fits: spec_fn(Seq<usize>) -> bool,
)
    requires
        start.len() == roots.len(),
        0 <= i < j <= roots.len(),
        disjoint::is_labelling(roots),
        forall|a: int| 0 <= a < roots.len() ==> #[trigger] settled(start, roots, fits, a),
    ensures
        ({
            let out = row_joined(roots, i, j, if_fitting(overlap, fits));
            out.len() == roots.len() && forall|a: int| 0 <= a < out.len() ==> #[trigger] settled(start, out, fits, a)
        }),
    decreases j - i,
{
    lemma_row_coarsens(roots, i, j, if_fitting(overlap, fits));
    if j > i + 1 {
        lemma_row_settled(start, roots, i, j - 1, overlap, fits);
        lemma_row_coarsens(roots, i, j - 1, if_fitting(overlap, fits));
        lemma_pair_settled(start, row_joined(roots, i, j - 1, if_fitting(overlap, fits)), i, j - 1, overlap, fits);
    }
}

proof fn lemma_rows_settled(
    roots: Seq<usize>,
    i: int,
    overlap: spec_fn(int, int) -> bool,
    fits: spec_fn(Seq<usize>) -> bool,
)
    requires
        0 <= i <= roots.len(),
        disjoint::is_labelling(roots),
    ensures
        ({
            let out = rows_joined(roots, i, if_fitting(overlap, fits));
            out.len() == roots.len() && forall|a: int| 0 <= a < out.len() ==> #[trigger] settled(roots, out, fits, a)
        }),
    decreases i,
{
    law_joining_coarsens(roots, i, if_fitting(overlap, fits));
    if i > 0 {
        lemma_rows_settled(roots, i - 1, overlap, fits);
        law_joining_coarsens(roots, i - 1, if_fitting(overlap, fits));
        lemma_row_settled(
            roots,
            rows_joined(roots, i - 1, if_fitting(overlap, fits)),
            i - 1,
            roots.len() as int,
            overlap,
            fits,
        );
    }
}

/// After overlapping clusters were joined where they fit, every class is as it was
/// before or fits. `class` lists the clusters of `a`'s class in ascending order.
pub proof fn law_joined_classes_fit(
    roots: Seq<usize>,
    overlap: spec_fn(int, int) -> bool,
    fits: spec_fn(Seq<usize>) -> bool,
    a: int,
    class: Seq<usize>,
)
    requires
        disjoint::is_labelling(roots),
        roots.len() <= usize::MAX,
        0 <= a < roots.len(),
        forall|p: int, q: int| 0 <= p < q < class.len() ==> #[trigger] class[p] < #[trigger] class[q],
        forall|x: usize| #[trigger]
            class.contains(x) <==> x < roots.len() && all_joined(roots, if_fitting(overlap, fits))[x as int] == all_joined(
                roots,
                if_fitting(overlap, fits),
            )[a],
    ensures
        fits(class) || forall|x: int|
            0 <= x < roots.len() ==> (#[trigger] all_joined(roots, if_fitting(overlap, fits))[x] == all_joined(
                roots,
                if_fitting(overlap, fits),
            )[a] <==> roots[x] == roots[a]),
{
    let n = roots.len() as int;
    lemma_rows_settled(roots, n, overlap, fits);
    let out = all_joined(roots, if_fitting(overlap, fits));
    assert(settled(roots, out, fits, a));
    let listed = members(out, a, a, n);
    lemma_members_ascend(out, a, a, n);
    assert forall|x: usize| #[trigger] listed.contains(x) <==> class.contains(x) by {
        lemma_members(out, a, a, n, x);
    }
    lemma_ascending_lists_are_equal(listed, class);
}

proof fn lemma_members_ascend(roots: Seq<usize>, a: int, b: int, k: int)
    requires
        0 <= k <= roots.len() <= usize::MAX,
    ensures
        forall|p: int| 0 <= p < members(roots, a, b, k).len() ==> (#[trigger] members(roots, a, b, k)[p]) < k,
        forall|p: int, q: int|
            0 <= p < q < members(roots, a, b, k).len() ==> #[trigger] members(roots, a, b, k)[p] < #[trigger] members(
                roots,
                a,
                b,
                k,
            )[q],
    decreases k,
{
    if k > 0 {
        lemma_members_ascend(roots, a, b, k - 1);
        let before = members(roots, a, b, k - 1);
        let after = members(roots, a, b, k);
        assert forall|p: int| 0 <= p < after.len() implies (#[trigger] after[p]) < k by {
            if p < before.len() {
                assert(after[p] == before[p]);
            }
        }
        assert forall|p: int, q: int| 0 <= p < q < after.len() implies #[trigger] after[p] < #[trigger] after[q] by {
            assert(after[p] == before[p]);
            if q < before.len() {
                assert(after[q] == before[q]);
            }
        }
    }
}

proof fn lemma_ascending_lists_are_equal(a: Seq<usize>, b: Seq<usize>)
    requires
        forall|p: int, q: int| 0 <= p < q < a.len() ==> #[trigger] a[p] < #[trigger] a[q],
        forall|p: int, q: int| 0 <= p < q < b.len() ==> #[trigger] b[p] < #[trigger] b[q],
        forall|x: usize| #[trigger] a.contains(x) <==> b.contains(x),
    ensures
        a == b,
    decreases a.len(),
{
    if a.len() == 0 {
        if b.len() > 0 {
            assert(b.contains(b[0]));
            assert(a.contains(b[0]));
        }
        assert(a =~= b);
    } else {
        let (u, v) = (a[a.len() - 1], a.drop_last());
        assert(a.contains(u));
        assert(b.contains(u));
        let last = b[b.len() - 1];
        assert(b.contains(last));
        assert(a.contains(last));
        let p = choose|p: int| 0 <= p < a.len() && a[p] == last;
        let q = choose|q: int| 0 <= q < b.len() && b[q] == u;
        assert(u == last);
        let w = b.drop_last();
        assert forall|x: usize| #[trigger] v.contains(x) <==> w.contains(x) by {
            if v.contains(x) {
                let m = choose|m: int| 0 <= m < v.len() && v[m] == x;
                assert(a[m] == x);
                assert(a.contains(x));
                let k = choose|k: int| 0 <= k < b.len() && b[k] == x;
                assert(w[k] == x);
            }
            if w.contains(x) {
                let m = choose|m: int| 0 <= m < w.len() && w[m] == x;
                assert(b[m] == x);
                assert(b.contains(x));
                assert(a.contains(x));
                let k = choose|k: int| 0 <= k < a.len() && a[k] == x;
                assert(v[k] == x);
            }
        }
        lemma_ascending_lists_are_equal(v, w);
        assert(a =~= v.push(u));
        assert(b =~= w.push(u));
    }
}

/// No decision joins clusters that `label` tells apart.
pub open spec fn heeds(decision: Decision, label: Seq<int>) -> bool {
    forall|roots: Seq<usize>, i: int, j: int|
        0 <= i < j < label.len() && #[trigger] decision(roots, i, j) ==> label[i] == label[j]
}

proof fn lemma_row_heeded(label: Seq<int>, roots: Seq<usize>, i: int, j: int, decision: Decision)
    requires
        disjoint::is_labelling(roots),
        0 <= i < j <= roots.len(),
        respects(label, roots),
        heeds(decision, label),
    ensures
        respects(label, row_joined(roots, i, j, decision)),
    decreases j - i,
{
    lemma_row_coarsens(roots, i, j, decision);
    if j > i + 1 {
        lemma_row_heeded(label, roots, i, j - 1, decision);
        let mid = row_joined(roots, i, j - 1, decision);
        let out = row_joined(roots, i, j, decision);
        if decision(mid, i, j - 1) {
            assert(label[i] == label[j - 1]);
            assert forall|a: int, b: int|
                0 <= a < out.len() && 0 <= b < out.len() && #[trigger] out[a] == #[trigger] out[b] implies label[a]
                == label[b] by {
                assert(mid[a] == mid[b] || (mid[a] == mid[i] || mid[a] == mid[j - 1]) && (mid[b] == mid[i] || mid[b] == mid[j
                    - 1]));
            }
        }
    }
}

/// Joining pairs puts no clusters together that a label tells apart which the old
/// classes respect and every decision heeds.
pub proof fn law_joining_heeds_labels(label: Seq<int>, roots: Seq<usize>, h: int, decision: Decision)
    requires
        disjoint::is_labelling(roots),
        0 <= h <= roots.len(),
        respects(label, roots),
        heeds(decision, label),
    ensures
        respects(label, rows_joined(roots, h, decision)),
    decreases h,
{
    if h > 0 {
        law_joining_heeds_labels(label, roots, h - 1, decision);
        law_joining_coarsens(roots, h - 1, decision);
        lemma_row_heeded(label, rows_joined(roots, h - 1, decision), h - 1, roots.len() as int, decision);
    }
}

/// Taking in small classes parts no clusters, and puts none together that a label
/// tells apart which the old classes respect and which is the same for a cluster and
/// those that take it in.
pub proof fn law_absorbing_heeds_labels(
    label: Seq<int>,
    roots: Seq<usize>,
    sizes: Seq<usize>,
    rel: spec_fn(int, int) -> bool,
    k: int,
)
    requires
        0 <= k <= roots.len(),
        respects(label, roots),
        forall|i: int, j: int|
            0 <= i < roots.len() && 0 <= j < roots.len() && #[trigger] rel(i, j) ==> label[i] == label[j],
    ensures
        coarsens(absorbed(roots, sizes, rel, k), roots),
        respects(label, absorbed(roots, sizes, rel, k)),
    decreases k,
{
    if k > 0 {
        law_absorbing_heeds_labels(label, roots, sizes, rel, k - 1);
        let mid = absorbed(roots, sizes, rel, k - 1);
        let out = absorbed(roots, sizes, rel, k);
        lemma_first_host(mid, sizes, rel, k - 1, 0);
        if let Some(h) = first_host(mid, sizes, rel, k - 1, 0) {
            assert(rel(k - 1, h));
            assert forall|a: int, b: int|
                0 <= a < roots.len() && 0 <= b < roots.len() && #[trigger] roots[a] == #[trigger] roots[b] implies out[a]
                == out[b] by {
                assert(mid[a] == mid[b]);
            }
            assert forall|a: int, b: int|
                0 <= a < out.len() && 0 <= b < out.len() && #[trigger] out[a] == #[trigger] out[b] implies label[a]
                == label[b] by {
                assert(mid[a] == mid[b] || (mid[a] == mid[h] || mid[a] == mid[k - 1]) && (mid[b] == mid[h] || mid[b] == mid[k
                    - 1]));
            }
        }
    }
}

proof fn lemma_absorbed_coarsens(roots: Seq<usize>, sizes: Seq<usize>, rel: spec_fn(int, int) -> bool, j: int, k: int)
    requires
        0 <= j <= k <= roots.len(),
    ensures
        coarsens(absorbed(roots, sizes, rel, k), absorbed(roots, sizes, rel, j)),
    decreases k,
{
    lemma_absorbed_len(roots, sizes, rel, k);
    lemma_absorbed_len(roots, sizes, rel, j);
    if j < k {
        lemma_absorbed_coarsens(roots, sizes, rel, j, k - 1);
        let from = absorbed(roots, sizes, rel, j);
        let mid = absorbed(roots, sizes, rel, k - 1);
        let out = absorbed(roots, sizes, rel, k);
        assert forall|a: int, b: int|
            0 <= a < roots.len() && 0 <= b < roots.len() && #[trigger] from[a] == #[trigger] from[b] implies out[a]
            == out[b] by {
            assert(mid[a] == mid[b]);
        }
    }
}

proof fn lemma_stays_alone(roots: Seq<usize>, sizes: Seq<usize>, rel: spec_fn(int, int) -> bool, a: int, k: int)
    requires
        0 <= k <= a < roots.len(),
        forall|x: int| 0 <= x < roots.len() && x != a ==> #[trigger] roots[x] != roots[a],
        forall|x: int| 0 <= x < roots.len() ==> !#[trigger] rel(x, a),
    ensures
        ({
            let out = absorbed(roots, sizes, rel, k);
            out.len() == roots.len() && forall|x: int| 0 <= x < roots.len() && x != a ==> #[trigger] out[x] != out[a]
        }),
    decreases k,
{
    if k > 0 {
        lemma_stays_alone(roots, sizes, rel, a, k - 1);
        let mid = absorbed(roots, sizes, rel, k - 1);
        lemma_first_host(mid, sizes, rel, k - 1, 0);
        assert(mid[k - 1] != mid[a]);
        if let Some(h) = first_host(mid, sizes, rel, k - 1, 0) {
            assert(rel(k - 1, h));
            assert(h != a);
            assert(mid[h] != mid[a]);
        }
    }
}

proof fn lemma_size_of_one(roots: Seq<usize>, sizes: Seq<usize>, a: int, k: int)
    requires
        0 <= a < roots.len(),
        0 <= k <= roots.len(),
        forall|x: int| 0 <= x < roots.len() && x != a ==> #[trigger] roots[x] != roots[a],
    ensures
        class_size(roots, sizes, a, k) == if k > a {
            sizes[a] as nat
        } else {
            0
        },
    decreases k,
{
    if k > 0 {
        lemma_size_of_one(roots, sizes, a, k - 1);
        if k - 1 != a {
            assert(roots[k - 1] != roots[a]);
        }
    }
}

/// A cluster that is alone, has at most three boxes and takes in no other ends up
/// with the one cluster of three boxes or more that takes it in.
pub proof fn law_small_cluster_is_taken_in(
    roots: Seq<usize>,
    sizes: Seq<usize>,
    rel: spec_fn(int, int) -> bool,
    a: int,
    b: int,
)
    requires
        0 <= a < roots.len(),
        0 <= b < roots.len(),
        a != b,
        sizes.len() == roots.len(),
        forall|x: int| 0 <= x < roots.len() && x != a ==> #[trigger] roots[x] != roots[a],
        forall|x: int| 0 <= x < roots.len() ==> !#[trigger] rel(x, a),
        forall|x: int| 0 <= x < roots.len() && x != b ==> !#[trigger] rel(a, x),
        rel(a, b),
        sizes[a] <= 3,
        sizes[b] >= 3,
    ensures
        absorbed(roots, sizes, rel, roots.len() as int)[a] == absorbed(roots, sizes, rel, roots.len() as int)[b],
{
    let n = roots.len() as int;
    lemma_stays_alone(roots, sizes, rel, a, a);
    let mid = absorbed(roots, sizes, rel, a);
    lemma_size_of_one(mid, sizes, a, n);
    assert(mid[b] != mid[a]);
    law_small_cluster_joins_its_first_host(mid, sizes, rel, a, b);
    let after = absorbed(roots, sizes, rel, a + 1);
    assert(after == one_absorbed(mid, sizes, rel, a));
    assert(after[a] == mid[b]);
    assert(after[b] == mid[b]);
    lemma_absorbed_coarsens(roots, sizes, rel, a + 1, n);
    lemma_absorbed_len(roots, sizes, rel, a + 1);
    assert(after[a] == after[b]);
}

} // verus!
