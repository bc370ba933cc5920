//! Growing line clusters from seed boxes.
//!
//! Boxes are put into the cells of a grid. From each seed box, taken in a given
//! order, a line is followed forward and backward: at every step the cells
//! around the point where the next box is expected are searched, and the
//! nearest acceptable box is added.

use std::collections::HashMap;

use vstd::prelude::*;

use crate::groups;
use crate::ordering;
use crate::ordering::Ordinal;

verus! {

/// A line is followed for at most this many steps in each direction.
pub const MAX_STEPS: usize = 200;

/// What the expansion depends on: the cell (column, row) of each box, the
/// width of the grid in columns, the cell to search next, and how far a
/// candidate lies ahead, if it is acceptable at all.
pub struct Walk {
    pub cells: Seq<(i32, i32)>,
    pub cols: int,
    pub search: spec_fn(int, bool, int) -> (i32, i32),
    pub along: spec_fn(int, bool, int, int) -> Option<Ordinal>,
}

/// The number of a cell. Columns beyond the grid run over into other rows.
pub open spec fn cell_key(cols: int, col: int, row: int) -> int {
    cols * row + col
}

/// The boxes below `k` in the cell with number `key`.
pub open spec fn bucket(cells: Seq<(i32, i32)>, cols: int, key: int, k: int) -> Seq<usize>
    decreases k,
{
    if k <= 0 {
        Seq::empty()
    } else if cell_key(cols, cells[k - 1].0 as int, cells[k - 1].1 as int) == key {
        bucket(cells, cols, key, k - 1).push((k - 1) as usize)
    } else {
        bucket(cells, cols, key, k - 1)
    }
}

/// The boxes in the first `q` of the nine cells around `at`, row by row.
pub open spec fn around(cells: Seq<(i32, i32)>, cols: int, at: (i32, i32), q: int) -> Seq<usize>
    decreases q,
{
    if q <= 0 {
        Seq::empty()
    } else {
        around(cells, cols, at, q - 1) + bucket(
            cells,
            cols,
            cell_key(cols, at.0 + (q - 1) % 3 - 1, at.1 + (q - 1) / 3 - 1),
            cells.len() as int,
        )
    }
}

/// The first of the nearest acceptable boxes among `candidates` that no
/// cluster has yet, with its distance.
pub open spec fn nearest(
    candidates: Seq<usize>,
    visited: Seq<bool>,
    distance: spec_fn(int) -> Option<Ordinal>,
) -> Option<(usize, Ordinal)>
    decreases candidates.len(),
{
    if candidates.len() == 0 {
        None
    } else {
        let best = nearest(candidates.drop_last(), visited, distance);
        let candidate = candidates.last();
        if visited[candidate as int] {
            best
        } else {
            match distance(candidate as int) {
                None => best,
                Some(d) => match best {
                    None => Some((candidate, d)),
                    Some((_, least)) => if d < least {
                        Some((candidate, d))
                    } else {
                        best
                    },
                },
            }
        }
    }
}

impl Walk {
    /// The distances of candidates ahead of box `cur`.
    pub open spec fn ahead(self, seed: int, forward: bool, cur: int) -> spec_fn(int) -> Option<Ordinal> {
        |candidate: int| (self.along)(seed, forward, cur, candidate)
    }

    /// The next box of the line after `cur`.
    pub open spec fn next(self, seed: int, forward: bool, cur: int, visited: Seq<bool>) -> Option<(usize, Ordinal)> {
        nearest(
            around(self.cells, self.cols, (self.search)(seed, forward, cur), 9),
            visited,
            self.ahead(seed, forward, cur),
        )
    }

    /// The boxes added in at most `steps` steps, and what is visited then.
    pub open spec fn trail(self, seed: usize, forward: bool, visited: Seq<bool>, steps: nat) -> (Seq<usize>, Seq<bool>)
        decreases steps,
    {
        if steps == 0 {
            (Seq::empty(), visited)
        } else {
            let (added, seen) = self.trail(seed, forward, visited, (steps - 1) as nat);
            let cur = if added.len() == 0 {
                seed
            } else {
                added.last()
            };
            match self.next(seed as int, forward, cur as int, seen) {
                None => (added, seen),
                Some((found, _)) => (added.push(found), seen.update(found as int, true)),
            }
        }
    }

    /// The cluster that grows from `seed`, and what is visited then.
    pub open spec fn cluster(self, seed: usize, visited: Seq<bool>) -> (Seq<usize>, Seq<bool>) {
        let (onward, seen) = self.trail(seed, true, visited.update(seed as int, true), MAX_STEPS as nat);
        let (back, seen) = self.trail(seed, false, seen, MAX_STEPS as nat);
        (seq![seed] + onward + back, seen)
    }

    /// The clusters that grow from the first `k` seeds in `order`, and what is
    /// visited then. A seed that a cluster has already starts none.
    pub open spec fn clusters(self, order: Seq<usize>, k: int) -> (Seq<Seq<usize>>, Seq<bool>)
        decreases k,
    {
        if k <= 0 {
            (Seq::empty(), Seq::new(self.cells.len(), |i: int| false))
        } else {
            let (grown, seen) = self.clusters(order, k - 1);
            if seen[order[k - 1] as int] {
                (grown, seen)
            } else {
                let (cluster, seen) = self.cluster(order[k - 1], seen);
                (grown.push(cluster), seen)
            }
        }
    }
}

/// Both judges may be asked about every box below `n`.
pub open spec fn walk_callable<S: Fn(usize, bool, usize) -> (i32, i32), A: Fn(usize, bool, usize, usize) -> Option<Ordinal>>(
    search: S,
    along: A,
    n: nat,
) -> bool {
    &&& forall|seed: usize, forward: bool, cur: usize|
        seed < n && cur < n ==> #[trigger] call_requires(search, (seed, forward, cur))
    &&& forall|seed: usize, forward: bool, cur: usize, candidate: usize|
        seed < n && cur < n && candidate < n ==> #[trigger] call_requires(along, (seed, forward, cur, candidate))
}

/// The judge measures distances as `walk` says.
pub open spec fn measures<A: Fn(usize, bool, usize, usize) -> Option<Ordinal>>(along: A, walk: Walk) -> bool {
    forall|seed: usize, forward: bool, cur: usize, candidate: usize, r: Option<Ordinal>| #[trigger]
        call_ensures(along, (seed, forward, cur, candidate), r) ==> r == (walk.along)(
            seed as int,
            forward,
            cur as int,
            candidate as int,
        )
}

/// Both judges answer as `walk` says.
pub open spec fn walk_decides<S: Fn(usize, bool, usize) -> (i32, i32), A: Fn(usize, bool, usize, usize) -> Option<Ordinal>>(
    search: S,
    along: A,
    walk: Walk,
) -> bool {
    &&& forall|seed: usize, forward: bool, cur: usize, r: (i32, i32)| #[trigger]
        call_ensures(search, (seed, forward, cur), r) ==> r == (walk.search)(seed as int, forward, cur as int)
    &&& measures(along, walk)
}

proof fn lemma_bucket_within(cells: Seq<(i32, i32)>, cols: int, key: int, k: int)
    requires
        0 <= k <= cells.len() <= usize::MAX,
    ensures
        forall|p: int| 0 <= p < bucket(cells, cols, key, k).len() ==> (#[trigger] bucket(cells, cols, key, k)[p]) < k,
    decreases k,
{
    if k > 0 {
        lemma_bucket_within(cells, cols, key, k - 1);
        let before = bucket(cells, cols, key, k - 1);
        assert forall|p: int| 0 <= p < bucket(cells, cols, key, k).len() implies (#[trigger] bucket(
            cells,
            cols,
            key,
            k,
        )[p]) < k by {
            if p < before.len() {
                assert(bucket(cells, cols, key, k)[p] == before[p]);
            }
        }
    }
}

/// The boxes of each cell of a grid.
pub struct SpatialHash {
    cols: i32,
    buckets: HashMap<i64, Vec<usize>>,
    cells: Ghost<Seq<(i32, i32)>>,
}

impl SpatialHash {
    /// The cells the boxes were put in.
    pub closed spec fn cells(&self) -> Seq<(i32, i32)> {
        self.cells@
    }

    /// The width of the grid.
    pub closed spec fn cols(&self) -> int {
        self.cols as int
    }

    /// Each bucket lists the boxes of its cell; empty cells have none.
    pub closed spec fn wf(&self) -> bool {
        &&& self.cells@.len() <= usize::MAX
        &&& forall|key: i64| #[trigger]
            self.buckets@.contains_key(key) ==> self.buckets@[key]@ == bucket(
                self.cells@,
                self.cols as int,
                key as int,
                self.cells@.len() as int,
            )
        &&& forall|key: i64|
            !#[trigger] self.buckets@.contains_key(key) ==> bucket(
                self.cells@,
                self.cols as int,
                key as int,
                self.cells@.len() as int,
            ) == Seq::<usize>::empty()
    }

    fn key(cols: i32, col: i64, row: i64) -> (key: i64)
        requires
            i32::MIN - 1 <= col <= i32::MAX + 1,
            i32::MIN - 1 <= row <= i32::MAX + 1,
        ensures
            key == cell_key(cols as int, col as int, row as int),
    {
        proof {
            assert(-0x4000_0000_8000_0000 <= cols * row <= 0x4000_0000_8000_0000) by (nonlinear_arith)
                requires
                    -0x8000_0000 <= cols <= 0x7fff_ffff,
                    -0x8000_0001 <= row <= 0x8000_0000,
            ;
        }
        (cols as i64) * row + col
    }

    /// Puts the boxes into their cells.
    pub fn new(cells: &Vec<(i32, i32)>, cols: i32) -> (hash: SpatialHash)
        ensures
            hash.wf(),
            hash.cells() == cells@,
            hash.cols() == cols,
    {
        broadcast use vstd::std_specs::hash::group_hash_axioms;

        let mut buckets: HashMap<i64, Vec<usize>> = HashMap::new();
        let mut k: usize = 0;
        while k < cells.len()
            invariant
                k <= cells.len(),
                vstd::std_specs::hash::obeys_key_model::<i64>(),
                forall|key: i64| #[trigger]
                    buckets@.contains_key(key) ==> buckets@[key]@ == bucket(cells@, cols as int, key as int, k as int),
                forall|key: i64|
                    !#[trigger] buckets@.contains_key(key) ==> bucket(cells@, cols as int, key as int, k as int)
                        == Seq::<usize>::empty(),
            decreases cells.len() - k,
        {
            broadcast use vstd::std_specs::hash::group_hash_axioms;

            let (col, row) = cells[k];
            let key = Self::key(cols, col as i64, row as i64);
            let mut list: Vec<usize> = match buckets.remove(&key) {
                Some(list) => list,
                None => Vec::new(),
            };
            list.push(k);
            buckets.insert(key, list);
            k = k + 1;
        }
        SpatialHash { cols, buckets, cells: Ghost(cells@) }
    }

    /// The nearest acceptable box in the nine cells around `at`.
    fn search<A: Fn(usize, bool, usize, usize) -> Option<Ordinal>>(
        &self,
        at: (i32, i32),
        visited: &Vec<bool>,
        seed: usize,
        forward: bool,
        cur: usize,
        along: &A,
    ) -> (found: Option<usize>)
        requires
            self.wf(),
            visited.len() == self.cells().len(),
            seed < visited.len(),
            cur < visited.len(),
            forall|candidate: usize| candidate < visited.len() ==> #[trigger] call_requires(*along, (seed, forward, cur, candidate)),
        ensures
            found matches Some(f) ==> f < visited.len(),
            forall|walk: Walk| #[trigger]
                measures(*along, walk) && walk.cells == self.cells() && walk.cols == self.cols() ==> match nearest(
                    around(self.cells(), self.cols(), at, 9),
                    visited@,
                    walk.ahead(seed as int, forward, cur as int),
                ) {
                    None => found is None,
                    Some((f, _)) => found == Some(f),
                },
    {
        broadcast use vstd::std_specs::hash::group_hash_axioms;

        let ghost cells = self.cells();
        let ghost cols = self.cols();
        let mut best: Option<(usize, Ordinal)> = None;
        let mut q: usize = 0;
        while q < 9
            invariant
                q <= 9,
                self.wf(),
                cells == self.cells(),
                cols == self.cols(),
                visited.len() == cells.len(),
                forall|candidate: usize|
                    candidate < visited.len() ==> #[trigger] call_requires(*along, (seed, forward, cur, candidate)),
                best matches Some((f, _)) ==> f < visited.len(),
                forall|walk: Walk| #[trigger]
                    measures(*along, walk) ==> best == nearest(
                        around(cells, cols, at, q as int),
                        visited@,
                        walk.ahead(seed as int, forward, cur as int),
                    ),
            decreases 9 - q,
        {
            broadcast use vstd::std_specs::hash::group_hash_axioms;

            let key = Self::key(self.cols, at.0 as i64 + (q % 3) as i64 - 1, at.1 as i64 + (q / 3) as i64 - 1);
            let ghost listed = bucket(cells, cols, key as int, cells.len() as int);
            let ghost before = around(cells, cols, at, q as int);
            assert(around(cells, cols, at, q + 1) == before + listed);
            proof {
                lemma_bucket_within(cells, cols, key as int, cells.len() as int);
            }
            match self.buckets.get(&key) {
                Some(list) => {
                    let mut p: usize = 0;
                    assert(before + list@.take(0) =~= before);
                    while p < list.len()
                        invariant
                            p <= list.len(),
                            visited.len() == cells.len(),
                            forall|r: int| 0 <= r < list.len() ==> (#[trigger] list[r]) < visited.len(),
                            forall|candidate: usize|
                                candidate < visited.len() ==> #[trigger] call_requires(*along, (seed, forward, cur, candidate)),
                            best matches Some((f, _)) ==> f < visited.len(),
                            forall|walk: Walk| #[trigger]
                                measures(*along, walk) ==> best == nearest(
                                    before + list@.take(p as int),
                                    visited@,
                                    walk.ahead(seed as int, forward, cur as int),
                                ),
                        decreases list.len() - p,
                    {
                        let candidate = list[p];
                        assert((before + list@.take(p + 1)).drop_last() =~= before + list@.take(p as int));
                        if !visited[candidate] {
                            match along(seed, forward, cur, candidate) {
                                Some(d) => {
                                    best = match best {
                                        Some((kept, least)) => if d < least {
                                            Some((candidate, d))
                                        } else {
                                            Some((kept, least))
                                        },
                                        None => Some((candidate, d)),
                                    };
                                },
                                None => {},
                            }
                        }
                        p = p + 1;
                    }
                    assert(list@.take(list.len() as int) =~= list@);
                },
                None => {
                    assert(before + listed =~= before);
                },
            }
            q = q + 1;
        }
        match best {
            Some((f, _)) => Some(f),
            None => None,
        }
    }
}

/// Once no next box is found, none is found later.
proof fn lemma_trail_stops(walk: Walk, seed: usize, forward: bool, visited: Seq<bool>, k: nat, steps: nat)
    requires
        k <= steps,
        ({
            let (added, seen) = walk.trail(seed, forward, visited, k);
            let cur = if added.len() == 0 {
                seed
            } else {
                added.last()
            };
            walk.next(seed as int, forward, cur as int, seen) is None
        }),
    ensures
        walk.trail(seed, forward, visited, steps) == walk.trail(seed, forward, visited, k),
    decreases steps,
{
    if k < steps {
        lemma_trail_stops(walk, seed, forward, visited, k, (steps - 1) as nat);
    }
}

/// Follows a line from `seed` in one direction, and adds its boxes to `cluster`.
fn follow<S: Fn(usize, bool, usize) -> (i32, i32), A: Fn(usize, bool, usize, usize) -> Option<Ordinal>>(
    hash: &SpatialHash,
    seed: usize,
    forward: bool,
    visited: &mut Vec<bool>,
    cluster: &mut Vec<usize>,
    search: &S,
    along: &A,
)
    requires
        hash.wf(),
        old(visited).len() == hash.cells().len(),
        seed < old(visited).len(),
        walk_callable(*search, *along, old(visited).len() as nat),
    ensures
        final(visited).len() == old(visited).len(),
        old(cluster).len() <= final(cluster).len(),
        (forall|p: int| 0 <= p < old(cluster).len() ==> (#[trigger] old(cluster)[p]) < old(visited).len()) ==> (forall|
            p: int,
        |
            0 <= p < final(cluster).len() ==> (#[trigger] final(cluster)[p]) < old(visited).len()),
        forall|walk: Walk| #[trigger]
            walk_decides(*search, *along, walk) && walk.cells == hash.cells() && walk.cols == hash.cols() ==> {
                let (added, seen) = walk.trail(seed, forward, old(visited)@, MAX_STEPS as nat);
                final(cluster)@ == old(cluster)@ + added && final(visited)@ == seen
            },
{
    let ghost start = visited@;
    let ghost base = cluster@;
    let mut cur = seed;
    let mut k: usize = 0;
    assert(base + Seq::<usize>::empty() =~= base);
    while k < MAX_STEPS
        invariant_except_break
            k <= MAX_STEPS,
            forall|walk: Walk| #[trigger]
                walk_decides(*search, *along, walk) && walk.cells == hash.cells() && walk.cols == hash.cols() ==> {
                    let (added, seen) = walk.trail(seed, forward, start, k as nat);
                    &&& cluster@ == base + added
                    &&& visited@ == seen
                    &&& cur == if added.len() == 0 {
                        seed
                    } else {
                        added.last()
                    }
                },
        invariant
            hash.wf(),
            visited.len() == hash.cells().len(),
            visited.len() == start.len(),
            seed < visited.len(),
            cur < visited.len(),
            walk_callable(*search, *along, visited.len() as nat),
            base.len() <= cluster.len(),
            (forall|p: int| 0 <= p < base.len() ==> (#[trigger] base[p]) < visited.len()) ==> (forall|p: int|
                0 <= p < cluster.len() ==> (#[trigger] cluster[p]) < visited.len()),
        ensures
            forall|walk: Walk| #[trigger]
                walk_decides(*search, *along, walk) && walk.cells == hash.cells() && walk.cols == hash.cols() ==> {
                    let (added, seen) = walk.trail(seed, forward, start, MAX_STEPS as nat);
                    cluster@ == base + added && visited@ == seen
                },
        decreases MAX_STEPS - k,
    {
        let at = search(seed, forward, cur);
        match hash.search(at, visited, seed, forward, cur, along) {
            Some(found) => {
                let ghost before = cluster@;
                visited.set(found, true);
                cluster.push(found);
                proof {
                    assert forall|walk: Walk| #[trigger]
                        walk_decides(*search, *along, walk) && walk.cells == hash.cells() && walk.cols
                            == hash.cols() implies {
                        let (added, seen) = walk.trail(seed, forward, start, (k + 1) as nat);
                        &&& cluster@ == base + added
                        &&& visited@ == seen
                        &&& found == if added.len() == 0 {
                            seed
                        } else {
                            added.last()
                        }
                    } by {
                        assert(measures(*along, walk));
                        let (added, seen) = walk.trail(seed, forward, start, k as nat);
                        assert(before.push(found) =~= base + added.push(found));
                    }
                }
                cur = found;
            },
            None => {
                proof {
                    assert forall|walk: Walk| #[trigger]
                        walk_decides(*search, *along, walk) && walk.cells == hash.cells() && walk.cols
                            == hash.cols() implies {
                        let (added, seen) = walk.trail(seed, forward, start, MAX_STEPS as nat);
                        cluster@ == base + added && visited@ == seen
                    } by {
                        assert(measures(*along, walk));
                        lemma_trail_stops(walk, seed, forward, start, k as nat, MAX_STEPS as nat);
                    }
                }
                break;
            },
        }
        k = k + 1;
    }
}

/// Grows clusters from the boxes, taken as seeds in `order`.
pub fn expand_clusters<S: Fn(usize, bool, usize) -> (i32, i32), A: Fn(usize, bool, usize, usize) -> Option<Ordinal>>(
    order: &Vec<usize>,
    cells: &Vec<(i32, i32)>,
    cols: i32,
    search: S,
    along: A,
) -> (clusters: Vec<Vec<usize>>)
    requires
        forall|p: int| 0 <= p < order.len() ==> (#[trigger] order[p]) < cells.len(),
        walk_callable(search, along, cells.len() as nat),
    ensures
        groups::sane(groups::contents(clusters@), cells.len() as nat),
        forall|walk: Walk| #[trigger]
            walk_decides(search, along, walk) && walk.cells == cells@ && walk.cols == cols ==> groups::contents(clusters@)
                == walk.clusters(order@, order.len() as int).0,
{
    let hash = SpatialHash::new(cells, cols);
    let mut visited: Vec<bool> = Vec::new();
    while visited.len() < cells.len()
        invariant
            visited.len() <= cells.len(),
            forall|i: int| 0 <= i < visited.len() ==> !#[trigger] visited[i],
        decreases cells.len() - visited.len(),
    {
        visited.push(false);
    }
    let mut clusters: Vec<Vec<usize>> = Vec::new();
    let mut k: usize = 0;
    assert(visited@ =~= Seq::new(cells@.len(), |i: int| false));
    assert(groups::contents(clusters@) =~= Seq::empty());
    while k < order.len()
        invariant
            k <= order.len(),
            hash.wf(),
            hash.cells() == cells@,
            hash.cols() == cols,
            visited.len() == cells.len(),
            forall|p: int| 0 <= p < order.len() ==> (#[trigger] order[p]) < cells.len(),
            walk_callable(search, along, cells.len() as nat),
            groups::sane(groups::contents(clusters@), cells.len() as nat),
            forall|walk: Walk| #[trigger]
                walk_decides(search, along, walk) && walk.cells == cells@ && walk.cols == cols ==> (
                    groups::contents(clusters@),
                    visited@,
                ) == walk.clusters(order@, k as int),
        decreases order.len() - k,
    {
        let seed = order[k];
        if !visited[seed] {
            let ghost before = clusters@;
            let ghost start = visited@;
            visited.set(seed, true);
            let mut cluster: Vec<usize> = Vec::new();
            cluster.push(seed);
            assert(cluster@ =~= seq![seed]);
            follow(&hash, seed, true, &mut visited, &mut cluster, &search, &along);
            follow(&hash, seed, false, &mut visited, &mut cluster, &search, &along);
            let ghost grown = cluster@;
            clusters.push(cluster);
            proof {
                assert(groups::contents(clusters@) =~= groups::contents(before).push(grown));
                assert forall|walk: Walk| #[trigger]
                    walk_decides(search, along, walk) && walk.cells == cells@ && walk.cols == cols implies (
                    groups::contents(clusters@),
                    visited@,
                ) == walk.clusters(order@, k + 1) by {
                    assert(walk.cluster(seed, start) == (grown, visited@));
                }
            }
        }
        k = k + 1;
    }
    clusters
}

spec fn mark(seen: Seq<bool>, x: usize) -> nat {
    if x < seen.len() && seen[x as int] {
        1
    } else {
        0
    }
}

proof fn lemma_nearest_is_fresh(candidates: Seq<usize>, visited: Seq<bool>, distance: spec_fn(int) -> Option<Ordinal>)
    ensures
        nearest(candidates, visited, distance) matches Some((found, _)) ==> candidates.contains(found)
            && !visited[found as int],
    decreases candidates.len(),
{
    if candidates.len() > 0 {
        lemma_nearest_is_fresh(candidates.drop_last(), visited, distance);
        assert(candidates[candidates.len() - 1] == candidates.last());
        match nearest(candidates.drop_last(), visited, distance) {
            Some((found, _)) => {
                let p = choose|p: int| 0 <= p < candidates.len() - 1 && candidates.drop_last()[p] == found;
                assert(candidates[p] == found);
            },
            None => {},
        }
    }
}

proof fn lemma_around_within(cells: Seq<(i32, i32)>, cols: int, at: (i32, i32), q: int)
    requires
        cells.len() <= usize::MAX,
    ensures
        forall|x: usize| #[trigger] around(cells, cols, at, q).contains(x) ==> x < cells.len(),
    decreases q,
{
    if q > 0 {
        lemma_around_within(cells, cols, at, q - 1);
        let key = cell_key(cols, at.0 + (q - 1) % 3 - 1, at.1 + (q - 1) / 3 - 1);
        lemma_bucket_within(cells, cols, key, cells.len() as int);
        let before = around(cells, cols, at, q - 1);
        let listed = bucket(cells, cols, key, cells.len() as int);
        assert forall|x: usize| #[trigger] around(cells, cols, at, q).contains(x) implies x < cells.len() by {
            let p = choose|p: int| 0 <= p < (before + listed).len() && (before + listed)[p] == x;
            if p < before.len() {
                assert(before[p] == x);
                assert(before.contains(x));
            } else {
                assert(listed[p - before.len()] == x);
            }
        }
    }
}

/// Following a line adds each newly visited box once, and no other.
proof fn lemma_trail_marks(walk: Walk, seed: usize, forward: bool, visited: Seq<bool>, steps: nat)
    requires
        visited.len() == walk.cells.len() <= usize::MAX,
    ensures
        ({
            let (added, seen) = walk.trail(seed, forward, visited, steps);
            &&& seen.len() == visited.len()
            &&& forall|x: usize| #[trigger] groups::occurrences(added, x) + mark(visited, x) == mark(seen, x)
        }),
    decreases steps,
{
    if steps > 0 {
        lemma_trail_marks(walk, seed, forward, visited, (steps - 1) as nat);
        let (added, seen) = walk.trail(seed, forward, visited, (steps - 1) as nat);
        let cur = if added.len() == 0 {
            seed
        } else {
            added.last()
        };
        let at = (walk.search)(seed as int, forward, cur as int);
        let candidates = around(walk.cells, walk.cols, at, 9);
        lemma_nearest_is_fresh(candidates, seen, walk.ahead(seed as int, forward, cur as int));
        lemma_around_within(walk.cells, walk.cols, at, 9);
        match walk.next(seed as int, forward, cur as int, seen) {
            Some((found, _)) => {
                assert(found < walk.cells.len());
                assert forall|x: usize| #[trigger]
                    groups::occurrences(added.push(found), x) + mark(visited, x) == mark(
                        seen.update(found as int, true),
                        x,
                    ) by {
                    groups::lemma_occurrences_push(added, found, x);
                    assert(groups::occurrences(added, x) + mark(visited, x) == mark(seen, x));
                }
            },
            None => {},
        }
    }
}

proof fn lemma_cluster_marks(walk: Walk, seed: usize, visited: Seq<bool>)
    requires
        visited.len() == walk.cells.len() <= usize::MAX,
        seed < visited.len(),
        !visited[seed as int],
    ensures
        ({
            let (cluster, seen) = walk.cluster(seed, visited);
            &&& cluster[0] == seed
            &&& seen.len() == visited.len()
            &&& forall|x: usize| #[trigger] groups::occurrences(cluster, x) + mark(visited, x) == mark(seen, x)
        }),
{
    let start = visited.update(seed as int, true);
    lemma_trail_marks(walk, seed, true, start, MAX_STEPS as nat);
    let (onward, midway) = walk.trail(seed, true, start, MAX_STEPS as nat);
    lemma_trail_marks(walk, seed, false, midway, MAX_STEPS as nat);
    let (back, seen) = walk.trail(seed, false, midway, MAX_STEPS as nat);
    let cluster = seq![seed] + onward + back;
    assert forall|x: usize| #[trigger] groups::occurrences(cluster, x) + mark(visited, x) == mark(seen, x) by {
        groups::lemma_occurrences_concat(seq![seed] + onward, back, x);
        groups::lemma_occurrences_concat(seq![seed], onward, x);
        groups::lemma_occurrences_push(Seq::empty(), seed, x);
        assert(Seq::<usize>::empty().push(seed) =~= seq![seed]);
        assert(groups::occurrences(Seq::<usize>::empty(), x) == 0);
        assert(groups::occurrences(onward, x) + mark(start, x) == mark(midway, x));
        assert(groups::occurrences(back, x) + mark(midway, x) == mark(seen, x));
    }
}

proof fn lemma_clusters_mark(walk: Walk, order: Seq<usize>, k: int)
    requires
        walk.cells.len() <= usize::MAX,
        0 <= k <= order.len(),
        forall|p: int| 0 <= p < order.len() ==> (#[trigger] order[p]) < walk.cells.len(),
    ensures
        ({
            let (grown, seen) = walk.clusters(order, k);
            &&& seen.len() == walk.cells.len()
            &&& forall|x: usize| #[trigger] groups::total(grown, x) == mark(seen, x)
            &&& forall|p: int| 0 <= p < k ==> seen[#[trigger] order[p] as int]
            &&& forall|c: int| 0 <= c < grown.len() ==> (#[trigger] grown[c]).len() > 0 && order.contains(grown[c][0])
        }),
    decreases k,
{
    if k > 0 {
        lemma_clusters_mark(walk, order, k - 1);
        let (grown, seen) = walk.clusters(order, k - 1);
        let seed = order[k - 1];
        if !seen[seed as int] {
            lemma_cluster_marks(walk, seed, seen);
            let (cluster, after) = walk.cluster(seed, seen);
            assert forall|x: usize| #[trigger] groups::total(grown.push(cluster), x) == mark(after, x) by {
                groups::lemma_total_push(grown, cluster, x);
                assert(groups::total(grown, x) == mark(seen, x));
                assert(groups::occurrences(cluster, x) + mark(seen, x) == mark(after, x));
            }
            assert forall|p: int| 0 <= p < k implies after[#[trigger] order[p] as int] by {
                let x = order[p];
                groups::lemma_occurs(cluster, 0);
                assert(groups::occurrences(cluster, x) + mark(seen, x) == mark(after, x));
            }
            assert(order.contains(cluster[0]));
        }
    }
}

/// Taken in an order that names every box once, the seeds give clusters that
/// hold every box exactly once.
pub proof fn law_expansion_partitions(walk: Walk, order: Seq<usize>)
    requires
        walk.cells.len() <= usize::MAX,
        ordering::is_permutation(order, walk.cells.len()),
    ensures
        groups::partitions(walk.clusters(order, order.len() as int).0, walk.cells.len()),
{
    lemma_clusters_mark(walk, order, order.len() as int);
    let (grown, seen) = walk.clusters(order, order.len() as int);
    assert forall|x: usize| #[trigger] groups::total(grown, x) == (if x < walk.cells.len() {
        1nat
    } else {
        0
    }) by {
        if x < walk.cells.len() {
            ordering::law_permutation_covers(order, walk.cells.len(), x as int);
            let p = choose|p: int| 0 <= p < order.len() && order[p] == x;
            assert(seen[order[p] as int]);
        }
    }
}

/// No cluster is empty, and each begins with one of the seeds.
pub proof fn law_clusters_begin_with_seeds(walk: Walk, order: Seq<usize>, c: int)
    requires
        walk.cells.len() <= usize::MAX,
        forall|p: int| 0 <= p < order.len() ==> (#[trigger] order[p]) < walk.cells.len(),
        0 <= c < walk.clusters(order, order.len() as int).0.len(),
    ensures
        walk.clusters(order, order.len() as int).0[c].len() > 0,
        order.contains(walk.clusters(order, order.len() as int).0[c][0]),
{
    lemma_clusters_mark(walk, order, order.len() as int);
}

/// The number of the cell `dx` columns and `dy` rows from `at`, counted row by row.
pub open spec fn number_beside(cols: int, at: (i32, i32), dx: int, dy: int) -> int {
    cols * (at.1 + dy) + (at.0 + dx)
}

/// Box `c` lies in one of the nine cells around `at`.
pub open spec fn is_around(walk: Walk, at: (i32, i32), c: int) -> bool {
    exists|dx: int, dy: int|
        -1 <= dx <= 1 && -1 <= dy <= 1 && walk.cols * walk.cells[c].1 + walk.cells[c].0 == #[trigger] number_beside(
            walk.cols,
            at,
            dx,
            dy,
        )
}

proof fn lemma_bucket_holds(cells: Seq<(i32, i32)>, cols: int, key: int, k: int, c: usize)
    requires
        0 <= k <= cells.len() <= usize::MAX,
    ensures
        bucket(cells, cols, key, k).contains(c) <==> c < k && cols * cells[c as int].1 + cells[c as int].0 == key,
    decreases k,
{
    if k > 0 {
        lemma_bucket_holds(cells, cols, key, k - 1, c);
        let before = bucket(cells, cols, key, k - 1);
        let after = bucket(cells, cols, key, k);
        if before.contains(c) {
            let p = choose|p: int| 0 <= p < before.len() && before[p] == c;
            assert(after[p] == c);
        }
        if after.len() > before.len() {
            assert(after[before.len() as int] == k - 1);
        }
        if after.contains(c) {
            let p = choose|p: int| 0 <= p < after.len() && after[p] == c;
            if p < before.len() {
                assert(before[p] == c);
            }
        }
    }
}

proof fn lemma_around_holds(walk: Walk, at: (i32, i32), q: int, c: usize)
    requires
        walk.cells.len() <= usize::MAX,
        0 <= q <= 9,
    ensures
        around(walk.cells, walk.cols, at, q).contains(c) <==> c < walk.cells.len() && exists|r: int|
            0 <= r < q && #[trigger] cell_key(walk.cols, at.0 + r % 3 - 1, at.1 + r / 3 - 1) == walk.cols
                * walk.cells[c as int].1 + walk.cells[c as int].0,
    decreases q,
{
    let cells = walk.cells;
    let own = walk.cols * cells[c as int].1 + cells[c as int].0;
    if q > 0 {
        lemma_around_holds(walk, at, q - 1, c);
        let key = cell_key(walk.cols, at.0 + (q - 1) % 3 - 1, at.1 + (q - 1) / 3 - 1);
        lemma_bucket_holds(cells, walk.cols, key, cells.len() as int, c);
        let before = around(cells, walk.cols, at, q - 1);
        let listed = bucket(cells, walk.cols, key, cells.len() as int);
        let all = around(cells, walk.cols, at, q);
        assert(all == before + listed);
        if before.contains(c) {
            let p = choose|p: int| 0 <= p < before.len() && before[p] == c;
            assert(all[p] == c);
        }
        if listed.contains(c) {
            let p = choose|p: int| 0 <= p < listed.len() && listed[p] == c;
            assert(all[before.len() + p] == c);
        }
        if all.contains(c) {
            let p = choose|p: int| 0 <= p < all.len() && all[p] == c;
            if p < before.len() {
                assert(before[p] == c);
            } else {
                assert(listed[p - before.len()] == c);
            }
        }
        if exists|r: int| 0 <= r < q && #[trigger] cell_key(walk.cols, at.0 + r % 3 - 1, at.1 + r / 3 - 1) == own {
            let r = choose|r: int| 0 <= r < q && #[trigger] cell_key(walk.cols, at.0 + r % 3 - 1, at.1 + r / 3 - 1) == own;
            if r < q - 1 {
                assert(cell_key(walk.cols, at.0 + r % 3 - 1, at.1 + r / 3 - 1) == own);
            }
        }
    }
}

proof fn lemma_nine_cells(walk: Walk, at: (i32, i32), c: usize)
    requires
        walk.cells.len() <= usize::MAX,
    ensures
        around(walk.cells, walk.cols, at, 9).contains(c) <==> c < walk.cells.len() && is_around(walk, at, c as int),
{
    lemma_around_holds(walk, at, 9, c);
    let own = walk.cols * walk.cells[c as int].1 + walk.cells[c as int].0;
    if exists|r: int| 0 <= r < 9 && #[trigger] cell_key(walk.cols, at.0 + r % 3 - 1, at.1 + r / 3 - 1) == own {
        let r = choose|r: int| 0 <= r < 9 && #[trigger] cell_key(walk.cols, at.0 + r % 3 - 1, at.1 + r / 3 - 1) == own;
        let (dx, dy) = (r % 3 - 1, r / 3 - 1);
        assert(number_beside(walk.cols, at, dx, dy) == own);
        assert(is_around(walk, at, c as int));
    }
    if is_around(walk, at, c as int) {
        let (dx, dy) = choose|dx: int, dy: int|
            -1 <= dx <= 1 && -1 <= dy <= 1 && own == #[trigger] number_beside(walk.cols, at, dx, dy);
        let r = 3 * (dy + 1) + (dx + 1);
        assert(r % 3 == dx + 1 && r / 3 == dy + 1);
        assert(cell_key(walk.cols, at.0 + r % 3 - 1, at.1 + r / 3 - 1) == own);
    }
}

proof fn lemma_nearest_is_least(candidates: Seq<usize>, visited: Seq<bool>, distance: spec_fn(int) -> Option<Ordinal>, c: usize)
    requires
        candidates.contains(c),
        !visited[c as int],
        distance(c as int) is Some,
    ensures
        nearest(candidates, visited, distance) is Some,
        (nearest(candidates, visited, distance)->0).1 <= distance(c as int)->0,
    decreases candidates.len(),
{
    let p = choose|p: int| 0 <= p < candidates.len() && candidates[p] == c;
    let fewer = candidates.drop_last();
    if p < fewer.len() {
        assert(fewer[p] == c);
        lemma_nearest_is_least(fewer, visited, distance, c);
    }
}

proof fn lemma_nearest_has_distance(candidates: Seq<usize>, visited: Seq<bool>, distance: spec_fn(int) -> Option<Ordinal>)
    ensures
        nearest(candidates, visited, distance) matches Some((found, d)) ==> distance(found as int) == Some(d),
    decreases candidates.len(),
{
    if candidates.len() > 0 {
        lemma_nearest_has_distance(candidates.drop_last(), visited, distance);
    }
}

/// The next box of a line is one that no cluster has, in one of the nine cells
/// around the point where it is expected, that may continue the line; of these it
/// is the nearest. There is none only if no box is such.
pub proof fn law_next_is_the_nearest(walk: Walk, seed: int, forward: bool, cur: int, visited: Seq<bool>)
    requires
        visited.len() == walk.cells.len() <= usize::MAX,
    ensures
        match walk.next(seed, forward, cur, visited) {
            Some((found, d)) => {
                &&& found < visited.len()
                &&& !visited[found as int]
                &&& is_around(walk, (walk.search)(seed, forward, cur), found as int)
                &&& (walk.along)(seed, forward, cur, found as int) == Some(d)
                &&& forall|c: int|
                    0 <= c < visited.len() && !visited[c] && is_around(walk, (walk.search)(seed, forward, cur), c)
                        ==> ((#[trigger] (walk.along)(seed, forward, cur, c)) matches Some(e) ==> d <= e)
            },
            None => forall|c: int|
                0 <= c < visited.len() && !visited[c] && is_around(walk, (walk.search)(seed, forward, cur), c)
                    ==> (#[trigger] (walk.along)(seed, forward, cur, c)) is None,
        },
{
    let at = (walk.search)(seed, forward, cur);
    let candidates = around(walk.cells, walk.cols, at, 9);
    let distance = walk.ahead(seed, forward, cur);
    lemma_nearest_is_fresh(candidates, visited, distance);
    lemma_nearest_has_distance(candidates, visited, distance);
    assert forall|c: int|
        0 <= c < visited.len() && !visited[c] && is_around(walk, at, c) && (#[trigger] (walk.along)(
            seed,
            forward,
            cur,
            c,
        )) is Some implies walk.next(seed, forward, cur, visited) is Some && (walk.next(seed, forward, cur, visited)->0).1
        <= (walk.along)(seed, forward, cur, c)->0 by {
        lemma_nine_cells(walk, at, c as usize);
        lemma_nearest_is_least(candidates, visited, distance, c as usize);
    }
    match walk.next(seed, forward, cur, visited) {
        Some((found, d)) => {
            lemma_nine_cells(walk, at, found);
        },
        None => {},
    }
}

/// The box that a trail goes on from: the last one added, or the seed.
pub open spec fn front(seed: usize, added: Seq<usize>) -> usize {
    if added.len() == 0 {
        seed
    } else {
        added.last()
    }
}

/// A trail is a chain: each box may continue the line from the one before it, the
/// first one from the seed. It ends only where nothing may continue it, or after as
/// many steps as it was given.
pub proof fn law_trail_is_a_chain(walk: Walk, seed: usize, forward: bool, visited: Seq<bool>, steps: nat)
    requires
        visited.len() == walk.cells.len() <= usize::MAX,
    ensures
        ({
            let (added, seen) = walk.trail(seed, forward, visited, steps);
            &&& added.len() <= steps
            &&& forall|i: int|
                0 <= i < added.len() ==> (walk.along)(
                    seed as int,
                    forward,
                    front(seed, added.take(i)) as int,
                    #[trigger] added[i] as int,
                ) is Some
            &&& added.len() < steps ==> forall|c: int|
                0 <= c < seen.len() && !seen[c] && is_around(
                    walk,
                    (walk.search)(seed as int, forward, front(seed, added) as int),
                    c,
                ) ==> (#[trigger] (walk.along)(seed as int, forward, front(seed, added) as int, c)) is None
            &&& seen.len() == visited.len()
            &&& forall|c: int| 0 <= c < seen.len() ==> #[trigger] seen[c] == (visited[c] || added.contains(c as usize))
        }),
    decreases steps,
{
    if steps > 0 {
        law_trail_is_a_chain(walk, seed, forward, visited, (steps - 1) as nat);
        let (before, seen) = walk.trail(seed, forward, visited, (steps - 1) as nat);
        let cur = front(seed, before);
        law_next_is_the_nearest(walk, seed as int, forward, cur as int, seen);
        match walk.next(seed as int, forward, cur as int, seen) {
            Some((found, d)) => {
                let added = before.push(found);
                assert(added.take(before.len() as int) =~= before);
                assert forall|i: int| 0 <= i < added.len() implies (walk.along)(
                    seed as int,
                    forward,
                    front(seed, added.take(i)) as int,
                    #[trigger] added[i] as int,
                ) is Some by {
                    if i < before.len() {
                        assert(added.take(i) =~= before.take(i));
                        assert(added[i] == before[i]);
                    }
                }
                let after = seen.update(found as int, true);
                assert forall|c: int| 0 <= c < after.len() implies #[trigger] after[c] == (visited[c] || added.contains(
                    c as usize,
                )) by {
                    assert(seen[c] == (visited[c] || before.contains(c as usize)));
                    if before.contains(c as usize) {
                        let p = choose|p: int| 0 <= p < before.len() && before[p] == c as usize;
                        assert(added[p] == c as usize);
                    }
                    if c == found {
                        assert(added[before.len() as int] == c as usize);
                    }
                    if added.contains(c as usize) && c != found {
                        let p = choose|p: int| 0 <= p < added.len() && added[p] == c as usize;
                        assert(before[p] == c as usize);
                    }
                }
                if before.len() < steps - 1 {
                    assert(!seen[found as int]);
                    assert((walk.along)(seed as int, forward, cur as int, found as int) is None);
                }
            },
            None => {},
        }
    }
}

/// How a cluster grows from its seed: forward first, then backward, each time as a
/// chain from the seed, of at most two hundred boxes. `onward` is how many boxes lie
/// ahead of the seed.
pub proof fn law_cluster_grows_both_ways(walk: Walk, seed: usize, visited: Seq<bool>) -> (onward: int)
    requires
        visited.len() == walk.cells.len() <= usize::MAX,
        seed < visited.len(),
    ensures
        ({
            let (cluster, seen) = walk.cluster(seed, visited);
            &&& 0 <= onward <= 200
            &&& 0 <= cluster.len() - 1 - onward <= 200
            &&& cluster[0] == seed
            &&& forall|i: int|
                1 <= i <= onward ==> (walk.along)(seed as int, true, cluster[i - 1] as int, #[trigger] cluster[i] as int) is Some
            &&& forall|i: int|
                onward < i < cluster.len() ==> (walk.along)(
                    seed as int,
                    false,
                    (if i == onward + 1 {
                        seed
                    } else {
                        cluster[i - 1]
                    }) as int,
                    #[trigger] cluster[i] as int,
                ) is Some
            &&& onward < 200 ==> forall|c: int|
                0 <= c < visited.len() && !visited[c] && !cluster.take(onward + 1).contains(c as usize) && is_around(
                    walk,
                    (walk.search)(seed as int, true, cluster[onward] as int),
                    c,
                ) ==> (#[trigger] (walk.along)(seed as int, true, cluster[onward] as int, c)) is None
            &&& cluster.len() - 1 - onward < 200 ==> {
                let last = if onward == cluster.len() - 1 {
                    seed
                } else {
                    cluster.last()
                };
                forall|c: int|
                    0 <= c < visited.len() && !visited[c] && !cluster.contains(c as usize) && is_around(
                        walk,
                        (walk.search)(seed as int, false, last as int),
                        c,
                    ) ==> (#[trigger] (walk.along)(seed as int, false, last as int, c)) is None
            }
        }),
{
    let start = visited.update(seed as int, true);
    let (ahead, midway) = walk.trail(seed, true, start, 200);
    let (back, seen) = walk.trail(seed, false, midway, 200);
    law_trail_is_a_chain(walk, seed, true, start, 200);
    law_trail_is_a_chain(walk, seed, false, midway, 200);
    let cluster = seq![seed] + ahead + back;
    let m = ahead.len() as int;
    assert(walk.cluster(seed, visited) == (cluster, seen));
    assert forall|i: int| 1 <= i <= m implies (walk.along)(
        seed as int,
        true,
        cluster[i - 1] as int,
        #[trigger] cluster[i] as int,
    ) is Some by {
        assert(cluster[i] == ahead[i - 1]);
        if i > 1 {
            assert(ahead.take(i - 1).last() == ahead[i - 2]);
        }
    }
    assert forall|i: int| m < i < cluster.len() implies (walk.along)(
        seed as int,
        false,
        (if i == m + 1 {
            seed
        } else {
            cluster[i - 1]
        }) as int,
        #[trigger] cluster[i] as int,
    ) is Some by {
        assert(cluster[i] == back[i - m - 1]);
        if i > m + 1 {
            assert(back.take(i - m - 1).last() == back[i - m - 2]);
        }
    }
    assert forall|c: int| 0 <= c < visited.len() && !visited[c] && !cluster.take(m + 1).contains(c as usize) implies !#[trigger] midway[c] by {
        let part = cluster.take(m + 1);
        assert(part[0] == seed);
        if ahead.contains(c as usize) {
            let p = choose|p: int| 0 <= p < ahead.len() && ahead[p] == c as usize;
            assert(part[p + 1] == c as usize);
        }
    }
    assert forall|c: int| 0 <= c < visited.len() && !visited[c] && !cluster.contains(c as usize) implies !#[trigger] seen[c] by {
        assert(cluster[0] == seed);
        if ahead.contains(c as usize) {
            let p = choose|p: int| 0 <= p < ahead.len() && ahead[p] == c as usize;
            assert(cluster[p + 1] == c as usize);
        }
        if back.contains(c as usize) {
            let p = choose|p: int| 0 <= p < back.len() && back[p] == c as usize;
            assert(cluster[m + 1 + p] == c as usize);
        }
        assert(midway[c] == (start[c] || ahead.contains(c as usize)));
    }
    if m < 200 {
        assert(front(seed, ahead) == cluster[m]);
        assert forall|c: int|
            0 <= c < visited.len() && !visited[c] && !cluster.take(m + 1).contains(c as usize) && is_around(
                walk,
                (walk.search)(seed as int, true, cluster[m] as int),
                c,
            ) implies (#[trigger] (walk.along)(seed as int, true, cluster[m] as int, c)) is None by {
            assert(!midway[c]);
        }
    }
    if back.len() < 200 {
        let last = front(seed, back);
        assert forall|c: int|
            0 <= c < visited.len() && !visited[c] && !cluster.contains(c as usize) && is_around(
                walk,
                (walk.search)(seed as int, false, last as int),
                c,
            ) implies (#[trigger] (walk.along)(seed as int, false, last as int, c)) is None by {
            assert(!seen[c]);
        }
    }
    m
}

} // verus!
