//! Union-find over `0..size`: quick-find, quick-union and weighted quick-union.
use vstd::prelude::*;
use vstd::arithmetic::power2::{lemma_pow2_strictly_increases, lemma_pow2_unfold, pow2};
use vstd::arithmetic::power::lemma_pow0;
use crate::algorithms::components::{
    group_by_key, grouped_by_key, largest_first, largest_first_indices,
};
use crate::algorithms::forest::{
    as_parents, class, depth, compress_to_root, compressed, union_model, depth_sum, find, forest_wf, joined, lemma_class_finite,
    lemma_find_facts, lemma_link, lemma_singletons_wf, linked_rank, singletons, total_depth, walk_to_root,
    zero_ranks,
};

verus! {

/// Quick-find: every node holds the label of its component, and a union relabels one whole
/// component.
pub struct QuickFind {
    pub nodes: Vec<usize>,
}

impl QuickFind {
    pub open spec fn size(&self) -> nat {
        self.nodes@.len()
    }

    /// Nodes `a` and `b` carry the same label.
    pub open spec fn connected(&self, a: int, b: int) -> bool {
        self.nodes@[a] == self.nodes@[b]
    }

    /// The connectivity as a relation.
    pub open spec fn conn_rel(&self) -> spec_fn(int, int) -> bool {
        |a: int, b: int| self.connected(a, b)
    }

    /// Every label is a node.
    pub open spec fn wf(&self) -> bool {
        forall|i: int| 0 <= i < self.nodes@.len() ==> #[trigger] self.nodes@[i] < self.nodes@.len()
    }

    /// Every node starts labelled with itself.
    pub fn new(size: usize) -> (s: Self)
        ensures
            s.wf(),
            s.size() == size,
            forall|i: int| 0 <= i < size ==> #[trigger] s.nodes@[i] == i,
            forall|a: int, b: int|
                0 <= a < size && 0 <= b < size ==> (#[trigger] s.connected(a, b) <==> a == b),
    {
        let mut nodes: Vec<usize> = Vec::with_capacity(size);
        for i in 0..size
            invariant
                nodes@.len() == i,
                forall|k: int| 0 <= k < i ==> nodes@[k] == k,
        {
            nodes.push(i);
        }
        Self { nodes }
    }

    /// Relabels the component of `p` with the label of `q`.
    pub fn union(&mut self, p: usize, q: usize)
        requires
            old(self).wf(),
            p < old(self).size(),
            q < old(self).size(),
        ensures
            final(self).wf(),
            final(self).size() == old(self).size(),
            forall|i: int|
                0 <= i < old(self).size() ==> #[trigger] final(self).nodes@[i] == if old(self).nodes@[i]
                    == old(self).nodes@[p as int] {
                    old(self).nodes@[q as int]
                } else {
                    old(self).nodes@[i]
                },
            forall|a: int, b: int|
                0 <= a < old(self).size() && 0 <= b < old(self).size() ==> #[trigger] final(self).connected(a, b)
                    == joined(old(self).conn_rel(), p as int, q as int, a, b),
    {
        let comp_p = self.nodes[p];
        let comp_q = self.nodes[q];
        if comp_p != comp_q {
            let n = self.nodes.len();
            for i in 0..n
                invariant
                    n == old(self).size(),
                    self.nodes@.len() == n,
                    comp_p == old(self).nodes@[p as int],
                    comp_q == old(self).nodes@[q as int],
                    comp_q < n,
                    forall|k: int|
                        0 <= k < i ==> #[trigger] self.nodes@[k] == if old(self).nodes@[k] == comp_p {
                            comp_q
                        } else {
                            old(self).nodes@[k]
                        },
                    forall|k: int| i <= k < n ==> #[trigger] self.nodes@[k] == old(self).nodes@[k],
                    old(self).wf(),
            {
                if self.nodes[i] == comp_p {
                    self.nodes[i] = comp_q;
                }
            }
        }
    }

    /// The components in ascending order of their labels, each listing its nodes ascending.
    pub fn get_components(&self) -> (components: Vec<Vec<usize>>)
        requires
            self.wf(),
        ensures
            grouped_by_key(self.nodes@, self.size(), components@.map_values(|g: Vec<usize>| g@)),
    {
        group_by_key(&self.nodes, self.nodes.len())
    }

    /// Whether `p` and `q` carry the same label.
    pub fn is_connected(&self, p: usize, q: usize) -> (c: bool)
        requires
            p < self.size(),
            q < self.size(),
        ensures
            c == self.connected(p as int, q as int),
    {
        self.nodes[p] == self.nodes[q]
    }
}

/// Quick-union: a union hangs the root of `p` under the root of `q`.
pub struct QuickUnion {
    pub nodes: Vec<usize>,
    pub ranks: Ghost<Seq<nat>>,
}

impl QuickUnion {
    pub open spec fn parents(&self) -> Seq<int> {
        as_parents(self.nodes@)
    }

    pub open spec fn size(&self) -> nat {
        self.nodes@.len()
    }

    /// The root of node `i`.
    pub open spec fn root_of(&self, i: int) -> int {
        find(self.parents(), self.ranks@, i)
    }

    /// Nodes `a` and `b` are in the same component.
    pub open spec fn connected(&self, a: int, b: int) -> bool {
        self.root_of(a) == self.root_of(b)
    }

    /// The connectivity as a relation.
    pub open spec fn conn_rel(&self) -> spec_fn(int, int) -> bool {
        |a: int, b: int| self.connected(a, b)
    }

    /// The parent array is a forest.
    pub open spec fn wf(&self) -> bool {
        forest_wf(self.parents(), self.ranks@)
    }

    /// Every node starts as a component of its own.
    pub fn new(size: usize) -> (s: Self)
        ensures
            s.wf(),
            s.size() == size,
            forall|i: int| 0 <= i < size ==> #[trigger] s.root_of(i) == i,
            forall|a: int, b: int|
                0 <= a < size && 0 <= b < size ==> (#[trigger] s.connected(a, b) <==> a == b),
    {
        let mut nodes: Vec<usize> = Vec::with_capacity(size);
        for i in 0..size
            invariant
                nodes@.len() == i,
                forall|k: int| 0 <= k < i ==> nodes@[k] == k,
        {
            nodes.push(i);
        }
        let s = Self { nodes, ranks: Ghost(zero_ranks(size as nat)) };
        proof {
            assert(s.parents() =~= singletons(size as nat));
            lemma_singletons_wf(size as nat);
        }
        s
    }

    /// Hangs the root of `p` under the root of `q` when they differ.
    pub fn union(&mut self, p: usize, q: usize)
        requires
            old(self).wf(),
            p < old(self).size(),
            q < old(self).size(),
        ensures
            final(self).wf(),
            final(self).size() == old(self).size(),
            forall|a: int, b: int|
                0 <= a < old(self).size() && 0 <= b < old(self).size() ==> #[trigger] final(self).connected(a, b)
                    == joined(old(self).conn_rel(), p as int, q as int, a, b),
            old(self).connected(p as int, q as int) ==> *final(self) == *old(self),
            !old(self).connected(p as int, q as int) ==> final(self).nodes@ == old(self).nodes@.update(
                old(self).root_of(p as int),
                old(self).root_of(q as int) as usize,
            ),
    {
        let root_p = self.root(p);
        let root_q = self.root(q);
        if root_p != root_q {
            let ghost par = self.parents();
            let ghost rk = self.ranks@;
            proof {
                lemma_find_facts(par, rk, p as int);
                lemma_find_facts(par, rk, q as int);
                lemma_link(par, rk, root_p as int, root_q as int);
            }
            self.nodes[root_p] = root_q;
            self.ranks = Ghost(linked_rank(rk, root_p as int, root_q as int));
            proof {
                assert(self.parents() =~= par.update(root_p as int, root_q as int));
            }
        }
    }

    /// Whether `p` and `q` are in the same component.
    pub fn is_connected(&mut self, p: usize, q: usize) -> (c: bool)
        requires
            old(self).wf(),
            p < old(self).size(),
            q < old(self).size(),
        ensures
            *final(self) == *old(self),
            c == old(self).connected(p as int, q as int),
    {
        let is_connected = self.root(p) == self.root(q);
        is_connected
    }

    /// The root of each node, as a key for grouping.
    pub open spec fn root_keys(&self) -> Seq<usize> {
        Seq::new(self.size(), |i: int| self.root_of(i) as usize)
    }

    /// The components in ascending order of their roots, each listing its nodes ascending.
    pub fn get_components(&self) -> (components: Vec<Vec<usize>>)
        requires
            self.wf(),
        ensures
            grouped_by_key(self.root_keys(), self.size(), components@.map_values(|g: Vec<usize>| g@)),
    {
        let n = self.nodes.len();
        let mut roots: Vec<usize> = Vec::with_capacity(n);
        for i in 0..n
            invariant
                self.wf(),
                n == self.size(),
                roots@.len() == i,
                forall|k: int| 0 <= k < i ==> #[trigger] roots@[k] == self.root_of(k) && roots@[k] < n,
        {
            let r = self.root(i);
            proof {
                lemma_find_facts(self.parents(), self.ranks@, i as int);
            }
            roots.push(r);
        }
        proof {
            assert(roots@ =~= self.root_keys());
        }
        group_by_key(&roots, n)
    }

    /// Sum over all nodes of the number of parent steps to the root.
    pub fn tree_depth_total(&self) -> (total: u128)
        requires
            self.wf(),
        ensures
            total == depth_sum(self.parents(), self.ranks@, self.size()),
    {
        total_depth(&self.nodes, self.ranks)
    }

    fn root(&self, p: usize) -> (r: usize)
        requires
            self.wf(),
            p < self.size(),
        ensures
            r == self.root_of(p as int),
    {
        walk_to_root(&self.nodes, self.ranks, p)
    }
}

/// Weighted quick-union: the smaller tree is hung under the root of the larger one, and with
/// `path_compression` both walked paths are pointed straight at the new root.
pub struct WeightedQuickUnion {
    pub nodes: Vec<usize>,
    pub sizes: Vec<usize>,
    pub path_compression: bool,
    pub ranks: Ghost<Seq<nat>>,
}

impl WeightedQuickUnion {
    /// The parent array as integers.
    pub open spec fn parents(&self) -> Seq<int> {
        as_parents(self.nodes@)
    }

    pub open spec fn size(&self) -> nat {
        self.nodes@.len()
    }

    /// The root of node `i`.
    pub open spec fn root_of(&self, i: int) -> int {
        find(self.parents(), self.ranks@, i)
    }

    /// Nodes `a` and `b` are in the same component.
    pub open spec fn connected(&self, a: int, b: int) -> bool {
        self.root_of(a) == self.root_of(b)
    }

    /// The connectivity as a relation.
    pub open spec fn conn_rel(&self) -> spec_fn(int, int) -> bool {
        |a: int, b: int| self.connected(a, b)
    }

    /// The nodes of the component whose root is `r`.
    pub open spec fn component(&self, r: int) -> Set<int> {
        class(self.parents(), self.ranks@, r)
    }

    /// The parent array is a forest and a root's size is the size of its component; every
    /// other node has size zero. A root of rank `k` has at least `2^k` nodes below it.
    pub open spec fn wf(&self) -> bool {
        &&& forest_wf(self.parents(), self.ranks@)
        &&& self.sizes@.len() == self.nodes@.len()
        &&& forall|i: int|
            0 <= i < self.nodes@.len() ==> #[trigger] self.sizes@[i] == if self.nodes@[i] == i {
                self.component(i).len()
            } else {
                0
            }
        &&& forall|r: int| 0 <= r < self.nodes@.len() && self.nodes@[r] == r ==> pow2(self.ranks@[r]) <= #[trigger] self.sizes@[r]
    }

    /// Every node starts as a component of its own.
    pub fn new(size: usize, path_compression: bool) -> (s: Self)
        ensures
            s.wf(),
            s.size() == size,
            s.path_compression == path_compression,
            forall|i: int| 0 <= i < size ==> #[trigger] s.root_of(i) == i,
            forall|a: int, b: int|
                0 <= a < size && 0 <= b < size ==> (#[trigger] s.connected(a, b) <==> a == b),
    {
        let mut nodes: Vec<usize> = Vec::with_capacity(size);
        let mut sizes: Vec<usize> = Vec::with_capacity(size);
        for i in 0..size
            invariant
                nodes@.len() == i,
                sizes@.len() == i,
                forall|k: int| 0 <= k < i ==> nodes@[k] == k && sizes@[k] == 1,
        {
            nodes.push(i);
            sizes.push(1);
        }
        let s = Self { nodes, sizes, path_compression, ranks: Ghost(zero_ranks(size as nat)) };
        proof {
            assert(s.parents() =~= singletons(size as nat));
            lemma_singletons_wf(size as nat);
            lemma_pow0(2);
            assert(pow2(0) == 1);
        }
        s
    }

    /// Follows parents from `p` up to its root.
    pub fn root(&self, p: usize) -> (r: usize)
        requires
            self.wf(),
            p < self.size(),
        ensures
            r == self.root_of(p as int),
    {
        walk_to_root(&self.nodes, self.ranks, p)
    }

    /// Whether `p` and `q` are in the same component.
    pub fn is_connected(&mut self, p: usize, q: usize) -> (c: bool)
        requires
            old(self).wf(),
            p < old(self).size(),
            q < old(self).size(),
        ensures
            *final(self) == *old(self),
            c == old(self).connected(p as int, q as int),
    {
        let is_connected = self.root(p) == self.root(q);
        is_connected
    }

    /// Points every node on the path from `i` straight at `root`, the root of `i`.
    fn compress_path(&mut self, i: usize, root: usize)
        requires
            old(self).wf(),
            i < old(self).size(),
            root == old(self).root_of(i as int),
        ensures
            final(self).wf(),
            final(self).size() == old(self).size(),
            final(self).path_compression == old(self).path_compression,
            final(self).sizes == old(self).sizes,
            final(self).ranks == old(self).ranks,
            final(self).parents() == compressed(old(self).parents(), old(self).ranks@, i as int, root as int),
            forall|j: int|
                0 <= j < old(self).size() ==> #[trigger] final(self).root_of(j) == old(self).root_of(j),
    {
        let ghost before = *self;
        compress_to_root(&mut self.nodes, self.ranks, i, root);
        proof {
            assert forall|j: int| 0 <= j < self.size() implies #[trigger] self.sizes@[j] == if self.nodes@[j]
                == j {
                self.component(j).len()
            } else {
                0
            } by {
                assert(before.sizes@[j] == if before.nodes@[j] == j {
                    before.component(j).len()
                } else {
                    0
                });
            }
        }
    }

    /// The root of each node, as a key for grouping.
    pub open spec fn root_keys(&self) -> Seq<usize> {
        Seq::new(self.size(), |i: int| self.root_of(i) as usize)
    }

    /// The components in ascending order of their roots, each listing its nodes ascending.
    pub fn get_components(&self) -> (components: Vec<Vec<usize>>)
        requires
            self.wf(),
        ensures
            grouped_by_key(self.root_keys(), self.size(), components@.map_values(|g: Vec<usize>| g@)),
    {
        let n = self.nodes.len();
        let mut roots: Vec<usize> = Vec::with_capacity(n);
        for i in 0..n
            invariant
                self.wf(),
                n == self.size(),
                roots@.len() == i,
                forall|k: int| 0 <= k < i ==> #[trigger] roots@[k] == self.root_of(k) && roots@[k] < n,
        {
            let r = self.root(i);
            proof {
                lemma_find_facts(self.parents(), self.ranks@, i as int);
            }
            roots.push(r);
        }
        proof {
            assert(roots@ =~= self.root_keys());
        }
        group_by_key(&roots, n)
    }

    /// Sum over all nodes of the number of parent steps to the root.
    pub fn tree_depth_total(&self) -> (total: u128)
        requires
            self.wf(),
        ensures
            total == depth_sum(self.parents(), self.ranks@, self.size()),
    {
        total_depth(&self.nodes, self.ranks)
    }

    /// The roots of the `limit` largest components with more than one node, largest first and,
    /// on equal sizes, smallest root first.
    pub fn get_roots_of_largest_components(&self, limit: usize) -> (roots: Vec<usize>)
        ensures
            largest_first(self.sizes@, limit as nat, roots@),
    {
        largest_first_indices(&self.sizes, limit)
    }

    /// The parents, the ranks and the component sizes.
    pub open spec fn model(&self) -> (Seq<int>, Seq<nat>, Seq<usize>) {
        (self.parents(), self.ranks@, self.sizes@)
    }

    /// Of the roots of `p` and `q`, the one whose tree is hung under the other: the root of the
    /// smaller component, or the root of `q` when the sizes are equal.
    pub open spec fn hung_root(&self, p: int, q: int) -> int {
        if self.sizes@[self.root_of(p)] < self.sizes@[self.root_of(q)] {
            self.root_of(p)
        } else {
            self.root_of(q)
        }
    }

    /// Of the roots of `p` and `q`, the one that stays a root.
    pub open spec fn kept_root(&self, p: int, q: int) -> int {
        if self.sizes@[self.root_of(p)] < self.sizes@[self.root_of(q)] {
            self.root_of(q)
        } else {
            self.root_of(p)
        }
    }

    /// Joins the components of `p` and `q` by hanging the tree of the smaller one under the
    /// root of the larger one (that of `p` on equal sizes); with path compression, every node
    /// on the paths from `p` and from `q` then points straight at the new root.
    pub fn union(&mut self, p: usize, q: usize)
        requires
            old(self).wf(),
            p < old(self).size(),
            q < old(self).size(),
        ensures
            final(self).wf(),
            final(self).size() == old(self).size(),
            final(self).path_compression == old(self).path_compression,
            forall|a: int, b: int|
                0 <= a < old(self).size() && 0 <= b < old(self).size() ==> #[trigger] final(self).connected(a, b) == joined(old(self).conn_rel(), p as int, q as int, a, b),
            final(self).model() == union_model(old(self).model(), old(self).path_compression, p as int, q as int),
            old(self).connected(p as int, q as int) ==> *final(self) == *old(self),
            !old(self).connected(p as int, q as int) ==> {
                let (a, b) = (old(self).hung_root(p as int, q as int), old(self).kept_root(p as int, q as int));
                let (linked, rank) = (old(self).parents().update(a, b), linked_rank(old(self).ranks@, a, b));
                &&& final(self).sizes@ == old(self).sizes@.update(b, (old(self).sizes@[a] + old(self).sizes@[b]) as usize).update(a, 0usize)
                &&& final(self).ranks@ == rank
                &&& final(self).parents() == if old(self).path_compression {
                    compressed(compressed(linked, rank, p as int, b), rank, q as int, b)
                } else {
                    linked
                }
                &&& forall|j: int|
                    0 <= j < old(self).size() ==> #[trigger] final(self).root_of(j) == if old(self).root_of(j) == a {
                        b
                    } else {
                        old(self).root_of(j)
                    }
            },
    {
        let ghost n = self.size();
        let (root_p, root_q) = (self.root(p), self.root(q));
        if root_p != root_q {
            let ghost par = self.parents();
            let ghost rk = self.ranks@;
            proof {
                lemma_find_facts(par, rk, p as int);
                lemma_find_facts(par, rk, q as int);
            }
            // Hang the smaller tree under the root of the larger one.
            let (a, b) = if self.sizes[root_p] < self.sizes[root_q] {
                (root_p, root_q)
            } else {
                (root_q, root_p)
            };
            let ghost (size_a, size_b) = (self.sizes@[a as int] as int, self.sizes@[b as int] as int);
            let ghost (rank_a, rank_b) = (rk[a as int], rk[b as int]);
            proof {
                assert(size_a <= size_b);
                assert(pow2(rank_a) <= size_a && pow2(rank_b) <= size_b);
                lemma_pow2_unfold(rank_a + 1);
                assert(pow2(linked_rank(rk, a as int, b as int)[b as int]) <= size_a + size_b);
            }
            proof {
                lemma_link(par, rk, a as int, b as int);
                lemma_class_finite(par.update(a as int, b as int), linked_rank(rk, a as int, b as int), b as int);
                assert(self.sizes@[a as int] == class(par, rk, a as int).len());
                assert(self.sizes@[b as int] == class(par, rk, b as int).len());
                assert(self.nodes@.len() == self.nodes.len());
            }
            self.nodes[a] = b;
            self.sizes[b] = self.sizes[b] + self.sizes[a];
            self.sizes[a] = 0;
            self.ranks = Ghost(linked_rank(rk, a as int, b as int));
            proof {
                assert(self.parents() =~= par.update(a as int, b as int));
                assert forall|j: int| 0 <= j < n implies #[trigger] self.sizes@[j] == if self.nodes@[j]
                    == j {
                    self.component(j).len()
                } else {
                    0
                } by {
                    if j != a as int && j != b as int {
                        assert(self.component(j) == class(par, rk, j));
                    }
                }
                assert forall|r: int| 0 <= r < n && self.nodes@[r] == r implies pow2(self.ranks@[r]) <= #[trigger] self.sizes@[r] by {
                    if r != a as int && r != b as int {
                        assert(old(self).nodes@[r] == r);
                        assert(pow2(old(self).ranks@[r]) <= old(self).sizes@[r]);
                    }
                }
            }
            let root = b;
            let ghost linked = *self;
            proof {
                assert(linked.sizes@ =~= old(self).sizes@.update(b as int, (old(self).sizes@[a as int] + old(self).sizes@[b as int]) as usize).update(a as int, 0usize));
            }
            if self.path_compression {
                self.compress_path(p, root);
                self.compress_path(q, root);
            }
            assert forall|j: int| 0 <= j < n implies #[trigger] self.root_of(j) == linked.root_of(j) by {}
        }
    }
}

/// Weighted union keeps its trees shallow: no node lies more than log2 of the size of its
/// component below the root, that is, 2 raised to the number of parent steps from a node to its
/// root is at most the size its root holds, the number of nodes of the component.
pub proof fn law_weighted_depth_bound(w: WeightedQuickUnion, i: int)
    requires
        w.wf(),
        0 <= i < w.size(),
    ensures
        pow2(depth(w.parents(), w.ranks@, i)) <= w.sizes@[w.root_of(i)],
        w.sizes@[w.root_of(i)] == w.component(w.root_of(i)).len(),
{
    lemma_find_facts(w.parents(), w.ranks@, i);
    let r = w.root_of(i);
    let d = depth(w.parents(), w.ranks@, i);
    assert(w.nodes@[r] == r);
    if d < w.ranks@[r] {
        lemma_pow2_strictly_increases(d, w.ranks@[r]);
    }
}

} // verus!
