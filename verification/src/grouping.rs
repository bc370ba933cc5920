//! From detected boxes to groups, one for each line of text.
//!
//! Clusters are grown along the direction of the text. Clusters on one line are
//! joined, then those that overlap as long as the result is not too high, then
//! small clusters go to a larger one on their line. Groups that span several
//! lines are cut, and fragments of one line are joined.

use vstd::prelude::*;

use crate::clusters;
use crate::disjoint;
use crate::disjoint::DisjointSet;
use crate::expansion;
use crate::expansion::Walk;
use crate::groups;
use crate::judge;
use crate::measure;
use crate::measure::Measure;
use crate::ordering;
use crate::ordering::Ordinal;
use crate::rules;
use crate::rules::{Approach, Fragments, Neighbour, Overlap};

verus! {

/// All that is measured of boxes and groups of boxes.
pub struct Geometry {
    /// The cell of each box, and the columns of the grid.
    pub cells: Seq<(i32, i32)>,
    pub cols: int,
    /// Where the next box of a line is looked for.
    pub search: spec_fn(int, bool, int) -> (i32, i32),
    /// How a candidate lies to the last box of a line.
    pub approach: spec_fn(int, bool, int, int) -> Approach,
    /// How two groups overlap.
    pub overlap: spec_fn(Seq<usize>, Seq<usize>) -> Overlap,
    /// The height of a group, and the height that a joined group may have.
    pub extent: spec_fn(Seq<usize>) -> Measure,
    pub most_height: Measure,
    /// How a small group lies to a larger one.
    pub neighbour: spec_fn(Seq<usize>, Seq<usize>) -> Neighbour,
    /// The angle of a group in degrees, without sign.
    pub tilt: spec_fn(Seq<usize>) -> Measure,
    /// The distance of two neighbours in a group, and its limit.
    pub gap: spec_fn(Seq<usize>, int, int) -> (Measure, Measure),
    /// How two groups near one line lie to each other.
    pub fragments: spec_fn(Seq<usize>, Seq<usize>) -> Fragments,
}

/// The boxes of the first `k` of the given clusters; one that is not there has
/// none.
pub open spec fn boxes_of(all: Seq<Seq<usize>>, chosen: Seq<usize>, k: int) -> Seq<usize>
    decreases k,
{
    if k <= 0 {
        Seq::empty()
    } else if chosen[k - 1] >= all.len() {
        boxes_of(all, chosen, k - 1)
    } else {
        boxes_of(all, chosen, k - 1) + all[chosen[k - 1] as int]
    }
}

impl Geometry {
    /// How clusters grow.
    pub open spec fn walk(self) -> Walk {
        Walk {
            cells: self.cells,
            cols: self.cols,
            search: self.search,
            along: |seed: int, forward: bool, cur: int, candidate: int|
                {
                    let a = (self.approach)(seed, forward, cur, candidate);
                    if rules::continues(a) {
                        a.along
                    } else {
                        None
                    }
                },
        }
    }

    /// The clusters that grow from the boxes, taken in `order`.
    pub open spec fn grown(self, order: Seq<usize>) -> Seq<Seq<usize>> {
        self.walk().clusters(order, order.len() as int).0
    }

    /// Two clusters stand on one line.
    pub open spec fn same_line(self, all: Seq<Seq<usize>>) -> spec_fn(int, int) -> bool {
        |i: int, j: int| rules::same_line((self.overlap)(all[i], all[j]))
    }

    /// Two clusters overlap.
    pub open spec fn overlaps(self, all: Seq<Seq<usize>>) -> spec_fn(int, int) -> bool {
        |i: int, j: int| rules::overlap((self.overlap)(all[i], all[j]))
    }

    /// Clusters together are not too high for a line.
    pub open spec fn fits(self, all: Seq<Seq<usize>>) -> spec_fn(Seq<usize>) -> bool {
        |chosen: Seq<usize>|
            measure::reaches(self.most_height, (self.extent)(boxes_of(all, chosen, chosen.len() as int)))
    }

    /// A cluster's line takes a small one in.
    pub open spec fn takes_in(self, all: Seq<Seq<usize>>) -> spec_fn(int, int) -> bool {
        |i: int, j: int| rules::takes_in((self.neighbour)(all[i], all[j]))
    }

    /// The classes of clusters after all that belongs together was joined.
    pub open spec fn joined(self, all: Seq<Seq<usize>>) -> Seq<usize> {
        let alone = disjoint::singletons(all.len());
        let level = clusters::all_joined(alone, clusters::regardless(self.same_line(all)));
        let fitting = clusters::all_joined(level, clusters::if_fitting(self.overlaps(all), self.fits(all)));
        clusters::absorbed(fitting, sizes_of(all), self.takes_in(all), all.len() as int)
    }

    /// A group is too tilted to be cut.
    pub open spec fn tilted(self) -> spec_fn(Seq<usize>) -> bool {
        |group: Seq<usize>| !rules::level((self.tilt)(group))
    }

    /// Two neighbours in a group are on different lines.
    pub open spec fn cut(self) -> spec_fn(Seq<usize>, int, int) -> bool {
        |group: Seq<usize>, a: int, b: int|
            {
                let (gap, limit) = (self.gap)(group, a, b);
                measure::exceeds(gap, limit)
            }
    }

    /// Two groups are fragments of one line.
    pub open spec fn one_line(self, all: Seq<Seq<usize>>) -> spec_fn(int, int) -> bool {
        |i: int, j: int| rules::one_line((self.fragments)(all[i], all[j]))
    }

    /// The groups of boxes, one for each line.
    pub open spec fn grouped(self, order: Seq<usize>, centers: Seq<Ordinal>) -> Seq<Seq<usize>> {
        let all = self.grown(order);
        refined(self, groups::classes(all, self.joined(all), all.len() as int), centers)
    }
}

/// The sizes of clusters.
pub open spec fn sizes_of(all: Seq<Seq<usize>>) -> Seq<usize> {
    Seq::new(all.len(), |p: int| all[p].len() as usize)
}

/// The measurer may be asked about every two groups.
pub open spec fn pair_callable<T, F: Fn(&Vec<usize>, &Vec<usize>) -> T>(measurer: F) -> bool {
    forall|a: &Vec<usize>, b: &Vec<usize>| #[trigger] call_requires(measurer, (a, b))
}

/// The measurer measures as `value` says.
pub open spec fn pair_measures<T, F: Fn(&Vec<usize>, &Vec<usize>) -> T>(
    measurer: F,
    value: spec_fn(Seq<usize>, Seq<usize>) -> T,
) -> bool {
    forall|a: &Vec<usize>, b: &Vec<usize>, r: T| #[trigger] call_ensures(measurer, (a, b), r) ==> r == value(a@, b@)
}

/// The measurer may be asked about every group.
pub open spec fn one_callable<F: Fn(&Vec<usize>) -> Measure>(measurer: F) -> bool {
    forall|a: &Vec<usize>| #[trigger] call_requires(measurer, (a,))
}

/// The measurer measures as `value` says.
pub open spec fn one_measures<F: Fn(&Vec<usize>) -> Measure>(measurer: F, value: spec_fn(Seq<usize>) -> Measure) -> bool {
    forall|a: &Vec<usize>, r: Measure| #[trigger] call_ensures(measurer, (a,), r) ==> r == value(a@)
}

/// The measurer may be asked about every group and every two of its boxes.
pub open spec fn gap_callable<F: Fn(&Vec<usize>, usize, usize) -> (Measure, Measure)>(measurer: F) -> bool {
    forall|g: &Vec<usize>, a: usize, b: usize| #[trigger] call_requires(measurer, (g, a, b))
}

/// The measurer measures as `value` says.
pub open spec fn gap_measures<F: Fn(&Vec<usize>, usize, usize) -> (Measure, Measure)>(
    measurer: F,
    value: spec_fn(Seq<usize>, int, int) -> (Measure, Measure),
) -> bool {
    forall|g: &Vec<usize>, a: usize, b: usize, r: (Measure, Measure)| #[trigger]
        call_ensures(measurer, (g, a, b), r) ==> r == value(g@, a as int, b as int)
}

/// Both measurers may be asked about every box below `n`.
pub open spec fn approach_callable<S: Fn(usize, bool, usize) -> (i32, i32), A: Fn(usize, bool, usize, usize) -> Approach>(
    search: S,
    approach: A,
    n: nat,
) -> bool {
    &&& forall|seed: usize, forward: bool, cur: usize|
        seed < n && cur < n ==> #[trigger] call_requires(search, (seed, forward, cur))
    &&& forall|seed: usize, forward: bool, cur: usize, candidate: usize|
        seed < n && cur < n && candidate < n ==> #[trigger] call_requires(approach, (seed, forward, cur, candidate))
}

/// Both measurers measure as `geometry` says.
pub open spec fn approach_measures<S: Fn(usize, bool, usize) -> (i32, i32), A: Fn(usize, bool, usize, usize) -> Approach>(
    search: S,
    approach: A,
    geometry: Geometry,
) -> bool {
    &&& forall|seed: usize, forward: bool, cur: usize, r: (i32, i32)| #[trigger]
        call_ensures(search, (seed, forward, cur), r) ==> r == (geometry.search)(seed as int, forward, cur as int)
    &&& forall|seed: usize, forward: bool, cur: usize, candidate: usize, r: Approach| #[trigger]
        call_ensures(approach, (seed, forward, cur, candidate), r) ==> r == (geometry.approach)(
            seed as int,
            forward,
            cur as int,
            candidate as int,
        )
}

/// Grows clusters of boxes along the direction of the text.
pub fn grow_clusters<S: Fn(usize, bool, usize) -> (i32, i32), A: Fn(usize, bool, usize, usize) -> Approach>(
    order: &Vec<usize>,
    cells: &Vec<(i32, i32)>,
    cols: i32,
    search: S,
    approach: A,
) -> (all: Vec<Vec<usize>>)
    requires
        forall|p: int| 0 <= p < order.len() ==> (#[trigger] order[p]) < cells.len(),
        approach_callable(search, approach, cells.len() as nat),
    ensures
        groups::sane(groups::contents(all@), cells.len() as nat),
        forall|g: Geometry| #[trigger]
            approach_measures(search, approach, g) && g.cells == cells@ && g.cols == cols ==> groups::contents(all@)
                == g.grown(order@),
{
    let measure = &approach;
    let along = |seed: usize, forward: bool, cur: usize, candidate: usize| -> (r: Option<Ordinal>)
        requires
            seed < cells.len(),
            cur < cells.len(),
            candidate < cells.len(),
        ensures
            exists|a: Approach| #[trigger]
                call_ensures(*measure, (seed, forward, cur, candidate), a) && r == if rules::continues(a) {
                    a.along
                } else {
                    None
                },
        {
            let a = measure(seed, forward, cur, candidate);
            rules::distance_ahead(a)
        };
    let ghost finder = search;
    let all = expansion::expand_clusters(order, cells, cols, search, along);
    proof {
        assert forall|g: Geometry| #[trigger]
            approach_measures(finder, approach, g) && g.cells == cells@ && g.cols == cols implies groups::contents(all@)
            == g.grown(order@) by {
            assert(expansion::walk_decides(finder, along, g.walk()));
        }
    }
    all
}

fn gather_boxes(all: &Vec<Vec<usize>>, chosen: &Vec<usize>) -> (boxes: Vec<usize>)
    ensures
        boxes@ == boxes_of(groups::contents(all@), chosen@, chosen.len() as int),
{
    let mut boxes: Vec<usize> = Vec::new();
    let ghost model = groups::contents(all@);
    let mut k: usize = 0;
    while k < chosen.len()
        invariant
            k <= chosen.len(),
            model == groups::contents(all@),
            boxes@ == boxes_of(model, chosen@, k as int),
        decreases chosen.len() - k,
    {
        if chosen[k] < all.len() {
            groups::append_copy(&mut boxes, &all[chosen[k]]);
        }
        k = k + 1;
    }
    boxes
}

/// All measurers of clusters measure as `geometry` says.
pub open spec fn cluster_measures<
    O: Fn(&Vec<usize>, &Vec<usize>) -> Overlap,
    E: Fn(&Vec<usize>) -> Measure,
    N: Fn(&Vec<usize>, &Vec<usize>) -> Neighbour,
>(overlap: O, extent: E, most_height: Measure, neighbour: N, geometry: Geometry) -> bool {
    &&& pair_measures(overlap, geometry.overlap)
    &&& one_measures(extent, geometry.extent)
    &&& pair_measures(neighbour, geometry.neighbour)
    &&& most_height == geometry.most_height
}

/// Joins clusters that belong to one line, and gathers their boxes.
pub fn join_clusters<
    O: Fn(&Vec<usize>, &Vec<usize>) -> Overlap,
    E: Fn(&Vec<usize>) -> Measure,
    N: Fn(&Vec<usize>, &Vec<usize>) -> Neighbour,
>(all: &Vec<Vec<usize>>, overlap: O, extent: E, most_height: Measure, neighbour: N) -> (merged: Vec<Vec<usize>>)
    requires
        pair_callable(overlap),
        one_callable(extent),
        pair_callable(neighbour),
    ensures
        forall|count: nat| #[trigger]
            groups::sane(groups::contents(all@), count) ==> groups::sane(groups::contents(merged@), count),
        forall|g: Geometry| #[trigger]
            cluster_measures(overlap, extent, most_height, neighbour, g) ==> groups::contents(merged@) == groups::classes(
                groups::contents(all@),
                g.joined(groups::contents(all@)),
                all.len() as int,
            ),
{
    let n: usize = all.len();
    let ghost model = groups::contents(all@);
    let mut set = DisjointSet::new(n);
    let o = &overlap;
    let e = &extent;
    let h = &neighbour;
    let same = |i: usize, j: usize| -> (r: bool)
        requires
            i < all.len(),
            j < all.len(),
        ensures
            i < all.len(),
            j < all.len(),
            exists|m: Overlap| #[trigger]
                call_ensures(*o, (&all[i as int], &all[j as int]), m) && r == rules::same_line(m),
        {
            let m = o(&all[i], &all[j]);
            rules::on_same_line(m)
        };
    let lies_over = |i: usize, j: usize| -> (r: bool)
        requires
            i < all.len(),
            j < all.len(),
        ensures
            i < all.len(),
            j < all.len(),
            exists|m: Overlap| #[trigger]
                call_ensures(*o, (&all[i as int], &all[j as int]), m) && r == rules::overlap(m),
        {
            let m = o(&all[i], &all[j]);
            rules::do_overlap(m)
        };
    let fits = |chosen: &Vec<usize>| -> (r: bool)
        ensures
            exists|boxes: &Vec<usize>, m: Measure|
                boxes@ == boxes_of(groups::contents(all@), chosen@, chosen.len() as int) && #[trigger] call_ensures(
                    *e,
                    (boxes,),
                    m,
                ) && r == measure::reaches(most_height, m),
        {
            let boxes = gather_boxes(all, chosen);
            let m = e(&boxes);
            measure::is_at_least(most_height, m)
        };
    let takes_in = |i: usize, j: usize| -> (r: bool)
        requires
            i < all.len(),
            j < all.len(),
        ensures
            i < all.len(),
            j < all.len(),
            exists|m: Neighbour| #[trigger]
                call_ensures(*h, (&all[i as int], &all[j as int]), m) && r == rules::takes_in(m),
        {
            let m = h(&all[i], &all[j]);
            rules::is_taken_in(m)
        };
    let mut sizes: Vec<usize> = Vec::new();
    while sizes.len() < n
        invariant
            n == all.len(),
            sizes.len() <= n,
            forall|p: int| 0 <= p < sizes.len() ==> #[trigger] sizes[p] == all[p].len(),
        decreases n - sizes.len(),
    {
        sizes.push(all[sizes.len()].len());
    }
    assert(sizes@ =~= sizes_of(model));
    clusters::join_same_line(&mut set, n, same);
    clusters::join_overlapping(&mut set, n, lies_over, fits);
    clusters::absorb_small(&mut set, &sizes, takes_in);
    proof {
        assert forall|g: Geometry| #[trigger] cluster_measures(overlap, extent, most_height, neighbour, g) implies set@
            == g.joined(model) by {
            assert(judge::decides(same, g.same_line(model)));
            assert(judge::decides(lies_over, g.overlaps(model)));
            assert(judge::group_decides(fits, g.fits(model)));
            assert(judge::decides(takes_in, g.takes_in(model)));
        }
        assert forall|count: nat| #[trigger] groups::sane(model, count) implies groups::sane(
            groups::classes(model, set@, all.len() as int),
            count,
        ) by {
            groups::lemma_classes_sane(model, set@, count);
        }
    }
    groups::gather_classes(all, &mut set)
}

/// All measurers of groups measure as `geometry` says.
pub open spec fn group_measures<
    T: Fn(&Vec<usize>) -> Measure,
    G: Fn(&Vec<usize>, usize, usize) -> (Measure, Measure),
    R: Fn(&Vec<usize>, &Vec<usize>) -> Fragments,
>(tilt: T, gap: G, fragments: R, geometry: Geometry) -> bool {
    &&& one_measures(tilt, geometry.tilt)
    &&& gap_measures(gap, geometry.gap)
    &&& pair_measures(fragments, geometry.fragments)
}

/// The groups after those that span several lines were cut, and fragments of one
/// line joined.
pub open spec fn refined(g: Geometry, merged: Seq<Seq<usize>>, centers: Seq<Ordinal>) -> Seq<Seq<usize>> {
    let pieces = groups::split(merged, centers, g.tilted(), g.cut(), merged.len() as int);
    let whole = clusters::all_joined(
        disjoint::singletons(pieces.len()),
        clusters::regardless(g.one_line(pieces)),
    );
    groups::classes(pieces, whole, pieces.len() as int)
}

/// Cuts groups that span several lines, and joins fragments of one line.
pub fn refine_groups<
    T: Fn(&Vec<usize>) -> Measure,
    G: Fn(&Vec<usize>, usize, usize) -> (Measure, Measure),
    R: Fn(&Vec<usize>, &Vec<usize>) -> Fragments,
>(merged: &Vec<Vec<usize>>, centers: &Vec<Ordinal>, tilt: T, gap: G, fragments: R) -> (lines: Vec<Vec<usize>>)
    requires
        groups::within(groups::contents(merged@), centers.len() as nat),
        one_callable(tilt),
        gap_callable(gap),
        pair_callable(fragments),
    ensures
        groups::sane(groups::contents(merged@), centers.len() as nat) ==> groups::sane(
            groups::contents(lines@),
            centers.len() as nat,
        ),
        forall|g: Geometry| #[trigger]
            group_measures(tilt, gap, fragments, g) ==> groups::contents(lines@) == refined(
                g,
                groups::contents(merged@),
                centers@,
            ),
{
    let t = &tilt;
    let d = &gap;
    let f = &fragments;
    let tilted = |group: &Vec<usize>| -> (r: bool)
        ensures
            exists|m: Measure| #[trigger] call_ensures(*t, (group,), m) && r == !rules::level(m),
        {
            let m = t(group);
            !rules::is_level(m)
        };
    let wide = |group: &Vec<usize>, a: usize, b: usize| -> (r: bool)
        ensures
            exists|m: (Measure, Measure)| #[trigger]
                call_ensures(*d, (group, a, b), m) && r == measure::exceeds(m.0, m.1),
        {
            let m = d(group, a, b);
            measure::is_above(m.0, m.1)
        };
    let pieces = groups::split_lines(merged, centers, tilted, wide);
    let ghost model = groups::contents(pieces@);
    proof {
        assert forall|g: Geometry| #[trigger] group_measures(tilt, gap, fragments, g) implies model == groups::split(
            groups::contents(merged@),
            centers@,
            g.tilted(),
            g.cut(),
            merged.len() as int,
        ) by {
            assert(judge::group_decides(tilted, g.tilted()));
            assert(groups::gap_decides(wide, g.cut()));
        }
    }
    let n: usize = pieces.len();
    let all = &pieces;
    let one_line = |i: usize, j: usize| -> (r: bool)
        requires
            i < all.len(),
            j < all.len(),
        ensures
            i < all.len(),
            j < all.len(),
            exists|m: Fragments| #[trigger]
                call_ensures(*f, (&all[i as int], &all[j as int]), m) && r == rules::one_line(m),
        {
            let m = f(&all[i], &all[j]);
            rules::are_one_line(m)
        };
    let mut set = DisjointSet::new(n);
    clusters::merge_lines(&mut set, n, one_line);
    proof {
        assert forall|g: Geometry| #[trigger] group_measures(tilt, gap, fragments, g) implies set@ == clusters::all_joined(
            disjoint::singletons(model.len()),
            clusters::regardless(g.one_line(model)),
        ) by {
            assert(judge::decides(one_line, g.one_line(model)));
        }
        if groups::sane(groups::contents(merged@), centers.len() as nat) {
            groups::lemma_classes_sane(model, set@, centers.len() as nat);
        }
    }
    groups::gather_classes(&pieces, &mut set)
}

/// Groups boxes into lines. `order` tells in which order boxes are taken as
/// seeds, `centers` orders them from top to bottom.
pub fn group_boxes<
    S: Fn(usize, bool, usize) -> (i32, i32),
    A: Fn(usize, bool, usize, usize) -> Approach,
    O: Fn(&Vec<usize>, &Vec<usize>) -> Overlap,
    E: Fn(&Vec<usize>) -> Measure,
    N: Fn(&Vec<usize>, &Vec<usize>) -> Neighbour,
    T: Fn(&Vec<usize>) -> Measure,
    G: Fn(&Vec<usize>, usize, usize) -> (Measure, Measure),
    R: Fn(&Vec<usize>, &Vec<usize>) -> Fragments,
>(
    order: &Vec<usize>,
    cells: &Vec<(i32, i32)>,
    cols: i32,
    centers: &Vec<Ordinal>,
    search: S,
    approach: A,
    overlap: O,
    extent: E,
    most_height: Measure,
    neighbour: N,
    tilt: T,
    gap: G,
    fragments: R,
) -> (lines: Vec<Vec<usize>>)
    requires
        forall|p: int| 0 <= p < order.len() ==> (#[trigger] order[p]) < cells.len(),
        centers.len() == cells.len(),
        approach_callable(search, approach, cells.len() as nat),
        pair_callable(overlap),
        one_callable(extent),
        pair_callable(neighbour),
        one_callable(tilt),
        gap_callable(gap),
        pair_callable(fragments),
    ensures
        groups::sane(groups::contents(lines@), cells.len() as nat),
        forall|g: Geometry|
            #[trigger] approach_measures(search, approach, g) && cluster_measures(
                overlap,
                extent,
                most_height,
                neighbour,
                g,
            ) && group_measures(tilt, gap, fragments, g) && g.cells == cells@ && g.cols == cols ==> groups::contents(lines@)
                == g.grouped(order@, centers@),
{
    let all = grow_clusters(order, cells, cols, search, approach);
    let merged = join_clusters(&all, overlap, extent, most_height, neighbour);
    refine_groups(&merged, centers, tilt, gap, fragments)
}

/// Seeds that name every box once give groups that hold every box exactly once.
pub proof fn law_grouping_keeps_every_box(g: Geometry, order: Seq<usize>, centers: Seq<Ordinal>)
    requires
        g.cells.len() <= usize::MAX,
        ordering::is_permutation(order, g.cells.len()),
    ensures
        groups::partitions(g.grouped(order, centers), g.cells.len()),
{
    let n = g.cells.len();
    let all = g.grown(order);
    let merged = groups::classes(all, g.joined(all), all.len() as int);
    let pieces = groups::split(merged, centers, g.tilted(), g.cut(), merged.len() as int);
    let whole = clusters::all_joined(
        disjoint::singletons(pieces.len()),
        clusters::regardless(g.one_line(pieces)),
    );
    expansion::law_expansion_partitions(g.walk(), order);
    groups::law_partition_is_within(all, n);
    assert forall|c: int| 0 <= c < all.len() implies (#[trigger] all[c]).len() > 0 by {
        expansion::law_clusters_begin_with_seeds(g.walk(), order, c);
    }
    groups::law_partition_is_small(all, n);
    let alone = disjoint::singletons(all.len());
    let level = clusters::all_joined(alone, clusters::regardless(g.same_line(all)));
    let fitting = clusters::all_joined(level, clusters::if_fitting(g.overlaps(all), g.fits(all)));
    clusters::lemma_all_joined_len(alone, clusters::regardless(g.same_line(all)));
    clusters::lemma_all_joined_len(level, clusters::if_fitting(g.overlaps(all), g.fits(all)));
    clusters::lemma_absorbed_len(fitting, sizes_of(all), g.takes_in(all), all.len() as int);
    groups::lemma_classes_sane(all, g.joined(all), n);
    assert forall|x: usize| #[trigger] groups::total(merged, x) == (if x < n {
        1nat
    } else {
        0
    }) by {
        groups::law_gathering_keeps_boxes(all, g.joined(all), x);
        assert(groups::total(all, x) == (if x < n {
            1nat
        } else {
            0
        }));
    }
    groups::law_partition_is_small(merged, n);
    groups::lemma_split_has_items(merged, centers, g.tilted(), g.cut(), merged.len() as int);
    assert forall|x: usize| #[trigger] groups::total(pieces, x) == (if x < n {
        1nat
    } else {
        0
    }) by {
        groups::law_splitting_keeps_boxes(merged, centers, g.tilted(), g.cut(), x);
        assert(groups::total(merged, x) == (if x < n {
            1nat
        } else {
            0
        }));
    }
    groups::law_partition_is_small(pieces, n);
    clusters::lemma_all_joined_len(
        disjoint::singletons(pieces.len()),
        clusters::regardless(g.one_line(pieces)),
    );
    assert forall|x: usize| #[trigger] groups::total(groups::classes(pieces, whole, pieces.len() as int), x) == (if x
        < n {
        1nat
    } else {
        0
    }) by {
        groups::law_gathering_keeps_boxes(pieces, whole, x);
        assert(groups::total(pieces, x) == (if x < n {
            1nat
        } else {
            0
        }));
    }
}

/// Clusters that stand on one line are joined, whatever else is.
pub proof fn law_clusters_on_one_line_are_joined(g: Geometry, all: Seq<Seq<usize>>, i: int, j: int)
    requires
        all.len() <= usize::MAX,
        0 <= i < j < all.len(),
        rules::same_line((g.overlap)(all[i], all[j])),
    ensures
        g.joined(all)[i] == g.joined(all)[j],
{
    let alone = disjoint::singletons(all.len());
    let level = clusters::all_joined(alone, clusters::regardless(g.same_line(all)));
    let fitting = clusters::all_joined(level, clusters::if_fitting(g.overlaps(all), g.fits(all)));
    clusters::law_joined_is_finest(alone, g.same_line(all));
    clusters::law_joining_coarsens(alone, all.len() as int, clusters::regardless(g.same_line(all)));
    assert((g.same_line(all))(i, j));
    assert(level[i] == level[j]);
    clusters::law_joining_coarsens(level, all.len() as int, clusters::if_fitting(g.overlaps(all), g.fits(all)));
    assert(fitting[i] == fitting[j]);
    clusters::law_absorbing_heeds_labels(
        Seq::new(all.len(), |k: int| 0int),
        fitting,
        sizes_of(all),
        g.takes_in(all),
        all.len() as int,
    );
}

/// Overlapping clusters are joined too, if no group is too high.
pub proof fn law_overlapping_clusters_are_joined(g: Geometry, all: Seq<Seq<usize>>, i: int, j: int)
    requires
        all.len() <= usize::MAX,
        0 <= i < j < all.len(),
        rules::overlap((g.overlap)(all[i], all[j])),
        g.most_height is Some,
        forall|group: Seq<usize>| (#[trigger] (g.extent)(group)) is Some && (g.extent)(group)->0 <= g.most_height->0,
    ensures
        g.joined(all)[i] == g.joined(all)[j],
{
    let alone = disjoint::singletons(all.len());
    let level = clusters::all_joined(alone, clusters::regardless(g.same_line(all)));
    let decision = clusters::if_fitting(g.overlaps(all), g.fits(all));
    let fitting = clusters::all_joined(level, decision);
    clusters::law_joining_coarsens(alone, all.len() as int, clusters::regardless(g.same_line(all)));
    assert(decision =~= clusters::regardless(g.overlaps(all)));
    clusters::law_joined_is_finest(level, g.overlaps(all));
    assert((g.overlaps(all))(i, j));
    assert(fitting[i] == fitting[j]);
    clusters::law_absorbing_heeds_labels(
        Seq::new(all.len(), |k: int| 0int),
        fitting,
        sizes_of(all),
        g.takes_in(all),
        all.len() as int,
    );
}

/// Clusters that nothing relates stay apart: no two are joined that a label tells
/// apart which is the same for clusters on one line, for clusters that overlap, and
/// for a cluster and those that take it in.
pub proof fn law_unrelated_clusters_stay_apart(g: Geometry, all: Seq<Seq<usize>>, label: Seq<int>, a: int, b: int)
    requires
        all.len() <= usize::MAX,
        label.len() == all.len(),
        0 <= a < all.len(),
        0 <= b < all.len(),
        label[a] != label[b],
        forall|i: int, j: int|
            0 <= i < all.len() && 0 <= j < all.len() && label[i] != label[j] ==> !rules::same_line(
                (#[trigger] (g.overlap)(all[i], all[j])),
            ) && !rules::overlap((g.overlap)(all[i], all[j])),
        forall|i: int, j: int|
            0 <= i < all.len() && 0 <= j < all.len() && label[i] != label[j] ==> !rules::takes_in(
                #[trigger] (g.neighbour)(all[i], all[j]),
            ),
    ensures
        g.joined(all)[a] != g.joined(all)[b],
{
    let n = all.len() as int;
    let alone = disjoint::singletons(all.len());
    let first = clusters::regardless(g.same_line(all));
    let second = clusters::if_fitting(g.overlaps(all), g.fits(all));
    let level = clusters::all_joined(alone, first);
    let fitting = clusters::all_joined(level, second);
    assert(clusters::heeds(first, label)) by {
        assert forall|roots: Seq<usize>, i: int, j: int| 0 <= i < j < label.len() && #[trigger] first(roots, i, j) implies
            label[i] == label[j] by {
            assert(rules::same_line((g.overlap)(all[i], all[j])));
        }
    }
    assert(clusters::heeds(second, label)) by {
        assert forall|roots: Seq<usize>, i: int, j: int| 0 <= i < j < label.len() && #[trigger] second(roots, i, j) implies
            label[i] == label[j] by {
            assert(rules::overlap((g.overlap)(all[i], all[j])));
        }
    }
    clusters::law_joining_coarsens(alone, n, first);
    clusters::law_joining_heeds_labels(label, alone, n, first);
    clusters::law_joining_heeds_labels(label, level, n, second);
    clusters::law_joining_coarsens(level, n, second);
    assert forall|i: int, j: int| 0 <= i < n && 0 <= j < n && #[trigger] (g.takes_in(all))(i, j) implies label[i]
        == label[j] by {
        assert(rules::takes_in((g.neighbour)(all[i], all[j])));
    }
    clusters::law_absorbing_heeds_labels(label, fitting, sizes_of(all), g.takes_in(all), n);
}

/// A cluster of at most three boxes that stands on no other's line, overlaps none and
/// takes none in is joined with the one cluster of three boxes or more that takes it
/// in.
pub proof fn law_small_cluster_finds_its_line(g: Geometry, all: Seq<Seq<usize>>, a: int, b: int)
    requires
        all.len() <= usize::MAX,
        forall|k: int| 0 <= k < all.len() ==> (#[trigger] all[k]).len() <= usize::MAX,
        0 <= a < all.len(),
        0 <= b < all.len(),
        a != b,
        all[a].len() <= 3,
        all[b].len() >= 3,
        rules::takes_in((g.neighbour)(all[a], all[b])),
        forall|k: int| 0 <= k < all.len() && k != b ==> !rules::takes_in((g.neighbour)(all[a], #[trigger] all[k])),
        forall|k: int| 0 <= k < all.len() ==> !rules::takes_in((g.neighbour)(#[trigger] all[k], all[a])),
        forall|k: int|
            0 <= k < all.len() && k != a ==> !rules::same_line((g.overlap)(all[a], #[trigger] all[k]))
                && !rules::same_line((g.overlap)(all[k], all[a])) && !rules::overlap((g.overlap)(all[a], all[k]))
                && !rules::overlap((g.overlap)(all[k], all[a])),
    ensures
        g.joined(all)[a] == g.joined(all)[b],
{
    let n = all.len() as int;
    let label = Seq::new(
        all.len(),
        |k: int|
            if k == a {
                1int
            } else {
                0int
            },
    );
    let alone = disjoint::singletons(all.len());
    let first = clusters::regardless(g.same_line(all));
    let second = clusters::if_fitting(g.overlaps(all), g.fits(all));
    let level = clusters::all_joined(alone, first);
    let fitting = clusters::all_joined(level, second);
    assert(clusters::heeds(first, label)) by {
        assert forall|roots: Seq<usize>, i: int, j: int| 0 <= i < j < label.len() && #[trigger] first(roots, i, j) implies
            label[i] == label[j] by {
            assert(rules::same_line((g.overlap)(all[i], all[j])));
        }
    }
    assert(clusters::heeds(second, label)) by {
        assert forall|roots: Seq<usize>, i: int, j: int| 0 <= i < j < label.len() && #[trigger] second(roots, i, j) implies
            label[i] == label[j] by {
            assert(rules::overlap((g.overlap)(all[i], all[j])));
        }
    }
    clusters::law_joining_coarsens(alone, n, first);
    clusters::law_joining_heeds_labels(label, alone, n, first);
    clusters::law_joining_heeds_labels(label, level, n, second);
    clusters::law_joining_coarsens(level, n, second);
    let rel = g.takes_in(all);
    assert forall|x: int| 0 <= x < n && x != a implies #[trigger] fitting[x] != fitting[a] by {
        assert(label[x] != label[a]);
    }
    assert forall|x: int| 0 <= x < n implies !#[trigger] rel(x, a) by {
        assert(!rules::takes_in((g.neighbour)(all[x], all[a])));
    }
    assert forall|x: int| 0 <= x < n && x != b implies !#[trigger] rel(a, x) by {
        assert(!rules::takes_in((g.neighbour)(all[a], all[x])));
    }
    assert(rel(a, b));
    clusters::law_small_cluster_is_taken_in(fitting, sizes_of(all), rel, a, b);
}

/// Pieces that are fragments of one line end up in one group, whose place is
/// returned.
pub proof fn law_fragments_end_in_one_group(g: Geometry, merged: Seq<Seq<usize>>, centers: Seq<Ordinal>, p: int, q: int) -> (at:
    int)
    requires
        ({
            let pieces = groups::split(merged, centers, g.tilted(), g.cut(), merged.len() as int);
            &&& pieces.len() <= usize::MAX
            &&& 0 <= p < q < pieces.len()
            &&& rules::one_line((g.fragments)(pieces[p], pieces[q]))
        }),
    ensures
        ({
            let pieces = groups::split(merged, centers, g.tilted(), g.cut(), merged.len() as int);
            let out = refined(g, merged, centers);
            &&& 0 <= at < out.len()
            &&& forall|x: usize| pieces[p].contains(x) || pieces[q].contains(x) ==> #[trigger] out[at].contains(x)
        }),
{
    let pieces = groups::split(merged, centers, g.tilted(), g.cut(), merged.len() as int);
    let alone = disjoint::singletons(pieces.len());
    let whole = clusters::all_joined(alone, clusters::regardless(g.one_line(pieces)));
    clusters::law_joined_is_finest(alone, g.one_line(pieces));
    assert((g.one_line(pieces))(p, q));
    assert(whole[p] == whole[q]);
    clusters::lemma_all_joined_len(alone, clusters::regardless(g.one_line(pieces)));
    let at = groups::law_class_is_a_group(pieces, whole, p);
    let out = refined(g, merged, centers);
    assert forall|x: usize| pieces[p].contains(x) || pieces[q].contains(x) implies #[trigger] out[at].contains(x) by {
        if pieces[p].contains(x) {
            assert(whole[p] == whole[p]);
        }
    }
    at
}

} // verus!
