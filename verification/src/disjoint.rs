//! A disjoint-set forest with path compression.

use vstd::prelude::*;

verus! {

/// The labelling in which every item is its own representative.
pub open spec fn singletons(n: nat) -> Seq<usize> {
    Seq::new(n, |i: int| i as usize)
}

/// The labelling `roots` after the class of `j` has been put under the
/// representative of `i`.
pub open spec fn joined(roots: Seq<usize>, i: int, j: int) -> Seq<usize> {
    Seq::new(roots.len(), |k: int| if roots[k] == roots[j] { roots[i] } else { roots[k] })
}

/// Each class is labelled by one of its own members.
pub open spec fn is_labelling(roots: Seq<usize>) -> bool {
    &&& forall|k: int| 0 <= k < roots.len() ==> (#[trigger] roots[k]) < roots.len()
    &&& forall|k: int| 0 <= k < roots.len() ==> roots[#[trigger] roots[k] as int] == roots[k]
}

/// A partition of `0..n` into classes. Its view gives the representative of
/// each item; two items are in one class if their representatives are equal.
pub struct DisjointSet {
    parent: Vec<usize>,
    roots: Ghost<Seq<usize>>,
    depth: Ghost<Seq<nat>>,
}

impl View for DisjointSet {
    type V = Seq<usize>;

    closed spec fn view(&self) -> Seq<usize> {
        self.roots@
    }
}

impl DisjointSet {
    /// The parent links form a forest whose roots are the representatives.
    pub closed spec fn wf(&self) -> bool {
        &&& self.parent.len() == self.roots@.len()
        &&& self.parent.len() == self.depth@.len()
        &&& is_labelling(self.roots@)
        &&& forall|k: int| 0 <= k < self.parent.len() ==> {
            &&& (#[trigger] self.parent[k]) < self.parent.len()
            &&& self.roots@[self.parent[k] as int] == self.roots@[k]
            &&& self.parent[k] == k <==> self.roots@[k] == k
            &&& self.parent[k] != k ==> self.depth@[self.parent[k] as int] < self.depth@[k]
        }
    }

    /// A well-formed set is a labelling of its items.
    pub proof fn lemma_wf_labels(&self)
        requires
            self.wf(),
        ensures
            is_labelling(self@),
    {
    }

    /// `n` items, each in a class of its own.
    pub fn new(n: usize) -> (set: DisjointSet)
        ensures
            set.wf(),
            set@ == singletons(n as nat),
    {
        let mut parent: Vec<usize> = Vec::new();
        let mut k: usize = 0;
        while k < n
            invariant
                k <= n,
                parent@ == singletons(k as nat),
            decreases n - k,
        {
            parent.push(k);
            k = k + 1;
            assert(parent@ =~= singletons(k as nat));
        }
        DisjointSet { parent, roots: Ghost(singletons(n as nat)), depth: Ghost(Seq::new(n as nat, |i: int| 0nat)) }
    }

    /// The representative of `i`. Every link on the way is redirected to it.
    pub fn find(&mut self, i: usize) -> (root: usize)
        requires
            old(self).wf(),
            i < old(self)@.len(),
        ensures
            final(self).wf(),
            final(self)@ == old(self)@,
            root == old(self)@[i as int],
            root < old(self)@.len(),
    {
        self.compress(i)
    }

    fn compress(&mut self, i: usize) -> (root: usize)
        requires
            old(self).wf(),
            i < old(self)@.len(),
        ensures
            final(self).wf(),
            final(self)@ == old(self)@,
            final(self).depth@ == old(self).depth@,
            root == old(self)@[i as int],
            root < old(self)@.len(),
            old(self).depth@[root as int] <= old(self).depth@[i as int],
        decreases old(self).depth@[i as int],
    {
        let up = self.parent[i];
        if up != i {
            let root = self.compress(up);
            self.parent.set(i, root);
        }
        self.parent[i]
    }

    /// The representative of `i`. Every other link on the way is redirected to
    /// its grandparent.
    pub fn find_halving(&mut self, i: usize) -> (root: usize)
        requires
            old(self).wf(),
            i < old(self)@.len(),
        ensures
            final(self).wf(),
            final(self)@ == old(self)@,
            root == old(self)@[i as int],
            root < old(self)@.len(),
    {
        let mut r: usize = i;
        while self.parent[r] != r
            invariant
                self.wf(),
                self@ == old(self)@,
                r < self@.len(),
                self@[r as int] == self@[i as int],
                i < self@.len(),
            decreases self.depth@[r as int],
        {
            let up = self.parent[r];
            let grand = self.parent[up];
            self.parent.set(r, grand);
            r = grand;
        }
        r
    }

    /// Puts the class of representative `under` below representative `root`.
    pub fn link(&mut self, root: usize, under: usize)
        requires
            old(self).wf(),
            root < old(self)@.len(),
            under < old(self)@.len(),
            old(self)@[root as int] == root,
            old(self)@[under as int] == under,
            root != under,
        ensures
            final(self).wf(),
            final(self)@ == joined(old(self)@, root as int, under as int),
    {
        let ghost roots = self.roots@;
        let ghost depth = self.depth@;
        self.parent.set(under, root);
        self.roots = Ghost(joined(roots, root as int, under as int));
        self.depth = Ghost(
            Seq::new(
                depth.len(),
                |k: int| if roots[k] == under { depth[k] + depth[root as int] + 1 } else { depth[k] },
            ),
        );
        assert(self.wf()) by {
            assert forall|k: int| 0 <= k < self.roots@.len() implies self.roots@[#[trigger] self.roots@[k] as int] == self.roots@[k] by {
                assert(roots[roots[k] as int] == roots[k]);
            }
            assert forall|k: int| 0 <= k < self.parent.len() implies {
                &&& (#[trigger] self.parent[k]) < self.parent.len()
                &&& self.roots@[self.parent[k] as int] == self.roots@[k]
                &&& self.parent[k] == k <==> self.roots@[k] == k
                &&& self.parent[k] != k ==> self.depth@[self.parent[k] as int] < self.depth@[k]
            } by {
                assert(old(self).parent[k] < self.parent.len());
            }
        }
    }
}

/// Joining two classes makes one of them and leaves all others as they were.
pub proof fn law_joining_makes_one_class(roots: Seq<usize>, i: int, j: int, a: int, b: int)
    requires
        0 <= i < roots.len(),
        0 <= j < roots.len(),
        0 <= a < roots.len(),
        0 <= b < roots.len(),
    ensures
        joined(roots, i, j).len() == roots.len(),
        joined(roots, i, j)[a] == joined(roots, i, j)[b] <==> roots[a] == roots[b] || (roots[a] == roots[i] || roots[a]
            == roots[j]) && (roots[b] == roots[i] || roots[b] == roots[j]),
{
}

/// At first every item is alone.
pub proof fn law_singletons_are_apart(n: nat, a: int, b: int)
    requires
        n <= usize::MAX,
        0 <= a < n,
        0 <= b < n,
    ensures
        singletons(n)[a] == singletons(n)[b] <==> a == b,
{
}

} // verus!
