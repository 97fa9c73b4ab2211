//! Weighted quick-union with path compression over any unsigned node type.
use vstd::prelude::*;
use crate::algorithms::components::{
    group_by_key, grouped_by_key, is_candidate, lemma_members_bound, present_keys, largest_first, largest_first_indices,
};
use crate::algorithms::forest::{
    as_parents, class, count_connected, depth_sum, find, forest_wf, joined, joined_all,
    law_joined_keeps_agreement, lemma_class_finite, lemma_compress, lemma_find_facts, lemma_link,
    lemma_singletons_wf, linked_rank, singletons, steps_up, total_depth, walk_to_root, zero_ranks, compressed,
    on_path, lemma_on_path_rank, lemma_on_path_step, union_model,
};

verus! {

/// An unsigned integer type that can number the nodes of a union-find structure.
pub trait NodeIndex: Copy + Sized {
    /// The number this value stands for.
    spec fn index_value(self) -> nat;

    /// The largest number the type holds.
    spec fn max_value() -> int;

    proof fn lemma_range(x: Self)
        ensures
            0 <= x.index_value() <= Self::max_value(),
            Self::max_value() >= 1,
    ;

    fn zero() -> (r: Self)
        ensures
            r.index_value() == 0,
    ;

    fn one() -> (r: Self)
        ensures
            r.index_value() == 1,
    ;

    fn to_usize(self) -> (r: usize)
        requires
            self.index_value() <= usize::MAX,
        ensures
            r == self.index_value(),
    ;

    fn from_usize(v: usize) -> (r: Self)
        requires
            v <= Self::max_value(),
        ensures
            r.index_value() == v,
    ;

    fn same(self, other: Self) -> (r: bool)
        ensures
            r == (self.index_value() == other.index_value()),
    ;

    fn less(self, other: Self) -> (r: bool)
        ensures
            r == (self.index_value() < other.index_value()),
    ;

    fn plus(self, other: Self) -> (r: Self)
        requires
            self.index_value() + other.index_value() <= Self::max_value(),
        ensures
            r.index_value() == self.index_value() + other.index_value(),
    ;

    fn minus(self, other: Self) -> (r: Self)
        requires
            other.index_value() <= self.index_value(),
        ensures
            r.index_value() == self.index_value() - other.index_value(),
    ;

    fn times(self, other: Self) -> (r: Self)
        requires
            self.index_value() * other.index_value() <= Self::max_value(),
        ensures
            r.index_value() == self.index_value() * other.index_value(),
    ;
}

impl NodeIndex for u8 {
    open spec fn index_value(self) -> nat {
        self as nat
    }

    open spec fn max_value() -> int {
        u8::MAX as int
    }

    proof fn lemma_range(x: Self) {
    }

    fn zero() -> (r: Self) {
        0
    }

    fn one() -> (r: Self) {
        1
    }

    fn to_usize(self) -> (r: usize) {
        self as usize
    }

    fn from_usize(v: usize) -> (r: Self) {
        v as u8
    }

    fn same(self, other: Self) -> (r: bool) {
        self == other
    }

    fn less(self, other: Self) -> (r: bool) {
        self < other
    }

    fn plus(self, other: Self) -> (r: Self) {
        self + other
    }

    fn minus(self, other: Self) -> (r: Self) {
        self - other
    }

    fn times(self, other: Self) -> (r: Self) {
        self * other
    }
}

impl NodeIndex for u16 {
    open spec fn index_value(self) -> nat {
        self as nat
    }

    open spec fn max_value() -> int {
        u16::MAX as int
    }

    proof fn lemma_range(x: Self) {
    }

    fn zero() -> (r: Self) {
        0
    }

    fn one() -> (r: Self) {
        1
    }

    fn to_usize(self) -> (r: usize) {
        self as usize
    }

    fn from_usize(v: usize) -> (r: Self) {
        v as u16
    }

    fn same(self, other: Self) -> (r: bool) {
        self == other
    }

    fn less(self, other: Self) -> (r: bool) {
        self < other
    }

    fn plus(self, other: Self) -> (r: Self) {
        self + other
    }

    fn minus(self, other: Self) -> (r: Self) {
        self - other
    }

    fn times(self, other: Self) -> (r: Self) {
        self * other
    }
}

impl NodeIndex for u32 {
    open spec fn index_value(self) -> nat {
        self as nat
    }

    open spec fn max_value() -> int {
        u32::MAX as int
    }

    proof fn lemma_range(x: Self) {
    }

    fn zero() -> (r: Self) {
        0
    }

    fn one() -> (r: Self) {
        1
    }

    fn to_usize(self) -> (r: usize) {
        self as usize
    }

    fn from_usize(v: usize) -> (r: Self) {
        v as u32
    }

    fn same(self, other: Self) -> (r: bool) {
        self == other
    }

    fn less(self, other: Self) -> (r: bool) {
        self < other
    }

    fn plus(self, other: Self) -> (r: Self) {
        self + other
    }

    fn minus(self, other: Self) -> (r: Self) {
        self - other
    }

    fn times(self, other: Self) -> (r: Self) {
        self * other
    }
}

impl NodeIndex for u64 {
    open spec fn index_value(self) -> nat {
        self as nat
    }

    open spec fn max_value() -> int {
        u64::MAX as int
    }

    proof fn lemma_range(x: Self) {
    }

    fn zero() -> (r: Self) {
        0
    }

    fn one() -> (r: Self) {
        1
    }

    fn to_usize(self) -> (r: usize) {
        self as usize
    }

    fn from_usize(v: usize) -> (r: Self) {
        v as u64
    }

    fn same(self, other: Self) -> (r: bool) {
        self == other
    }

    fn less(self, other: Self) -> (r: bool) {
        self < other
    }

    fn plus(self, other: Self) -> (r: Self) {
        self + other
    }

    fn minus(self, other: Self) -> (r: Self) {
        self - other
    }

    fn times(self, other: Self) -> (r: Self) {
        self * other
    }
}

impl NodeIndex for usize {
    open spec fn index_value(self) -> nat {
        self as nat
    }

    open spec fn max_value() -> int {
        usize::MAX as int
    }

    proof fn lemma_range(x: Self) {
    }

    fn zero() -> (r: Self) {
        0
    }

    fn one() -> (r: Self) {
        1
    }

    fn to_usize(self) -> (r: usize) {
        self
    }

    fn from_usize(v: usize) -> (r: Self) {
        v
    }

    fn same(self, other: Self) -> (r: bool) {
        self == other
    }

    fn less(self, other: Self) -> (r: bool) {
        self < other
    }

    fn plus(self, other: Self) -> (r: Self) {
        self + other
    }

    fn minus(self, other: Self) -> (r: Self) {
        self - other
    }

    fn times(self, other: Self) -> (r: Self) {
        self * other
    }
}

/// The number a node value stands for, as an integer.
pub open spec fn val<T: NodeIndex>(x: T) -> int {
    x.index_value() as int
}

/// The numbers a sequence of node values stands for.
pub open spec fn index_values<T: NodeIndex>(s: Seq<T>) -> Seq<int> {
    Seq::new(s.len(), |i: int| val(s[i]))
}

/// Weighted quick-union with path compression whose nodes are numbered by `T`.
pub struct GenericUnion<T: NodeIndex> {
    pub size: T,
    pub nodes: Vec<T>,
    pub sizes: Vec<T>,
    pub ranks: Ghost<Seq<nat>>,
}

impl<T: NodeIndex> GenericUnion<T> {
    pub open spec fn parents(&self) -> Seq<int> {
        index_values(self.nodes@)
    }

    pub open spec fn count(&self) -> nat {
        self.nodes@.len()
    }

    /// The root of node `i`.
    pub open spec fn root_of(&self, i: int) -> int {
        find(self.parents(), self.ranks@, i)
    }

    /// Nodes `a` and `b` are in the same component.
    pub open spec fn connected(&self, a: int, b: int) -> bool {
        self.root_of(a) == self.root_of(b)
    }

    /// The connectivity as a relation.
    pub open spec fn conn_rel(&self) -> spec_fn(int, int) -> bool {
        |a: int, b: int| self.connected(a, b)
    }

    /// The nodes of the component whose root is `r`.
    pub open spec fn component(&self, r: int) -> Set<int> {
        class(self.parents(), self.ranks@, r)
    }

    /// The node count is `size`, the parent array is a forest, and a root's size is the size
    /// of its component; every other node has size zero.
    pub open spec fn wf(&self) -> bool {
        &&& val(self.size) == self.nodes@.len()
        &&& self.nodes@.len() <= usize::MAX
        &&& forest_wf(self.parents(), self.ranks@)
        &&& self.sizes@.len() == self.nodes@.len()
        &&& forall|i: int|
            0 <= i < self.nodes@.len() ==> #[trigger] val(self.sizes@[i]) == if self.parents()[i]
                == i {
                self.component(i).len() as int
            } else {
                0
            }
    }

    /// Every node of `0..size` starts as a component of its own.
    pub fn new(size: T) -> (s: Self)
        requires
            val(size) <= usize::MAX,
        ensures
            s.wf(),
            s.count() == val(size),
            forall|i: int| 0 <= i < s.count() ==> #[trigger] s.root_of(i) == i,
            forall|a: int, b: int|
                0 <= a < s.count() && 0 <= b < s.count() ==> (#[trigger] s.connected(a, b) <==> a == b),
    {
        let size_usize = size.to_usize();
        let mut nodes: Vec<T> = Vec::with_capacity(size_usize);
        let mut sizes: Vec<T> = Vec::with_capacity(size_usize);
        let one = T::one();
        for i in 0..size_usize
            invariant
                size_usize == val(size),
                val(one) == 1,
                nodes@.len() == i,
                sizes@.len() == i,
                forall|k: int| 0 <= k < i ==> val(#[trigger] nodes@[k]) == k,
                forall|k: int| 0 <= k < i ==> val(#[trigger] sizes@[k]) == 1,
        {
            proof {
                T::lemma_range(size);
            }
            let node = T::from_usize(i);
            nodes.push(node);
            sizes.push(one);
            assert(val(nodes@[i as int]) == i);
            assert(val(sizes@[i as int]) == 1);
        }
        let s = Self { size, nodes, sizes, ranks: Ghost(zero_ranks(size_usize as nat)) };
        proof {
            assert(s.parents() =~= singletons(size_usize as nat));
            lemma_singletons_wf(size_usize as nat);
        }
        s
    }

    /// The parents, the ranks and the component sizes.
    pub open spec fn model(&self) -> (Seq<int>, Seq<nat>, Seq<usize>) {
        (self.parents(), self.ranks@, self.size_values())
    }

    /// Of the roots of `p` and `q`, the one whose tree is hung under the other: the root of the
    /// smaller component, or the root of `q` when the sizes are equal.
    pub open spec fn hung_root(&self, p: int, q: int) -> int {
        if self.size_values()[self.root_of(p)] < self.size_values()[self.root_of(q)] {
            self.root_of(p)
        } else {
            self.root_of(q)
        }
    }

    /// Of the roots of `p` and `q`, the one that stays a root.
    pub open spec fn kept_root(&self, p: int, q: int) -> int {
        if self.size_values()[self.root_of(p)] < self.size_values()[self.root_of(q)] {
            self.root_of(q)
        } else {
            self.root_of(p)
        }
    }

    /// Joins the components of `p` and `q`, hanging the smaller tree under the larger root (that
    /// of `p` on equal sizes) and pointing both walked paths straight at it.
    pub fn union(&mut self, p: T, q: T)
        requires
            old(self).wf(),
            val(p) < old(self).count(),
            val(q) < old(self).count(),
        ensures
            final(self).wf(),
            final(self).count() == old(self).count(),
            final(self).size == old(self).size,
            forall|a: int, b: int|
                0 <= a < old(self).count() && 0 <= b < old(self).count() ==> #[trigger] final(self).connected(a, b)
                    == joined(old(self).conn_rel(), val(p), val(q), a, b),
            final(self).model() == union_model(old(self).model(), true, val(p), val(q)),
            old(self).connected(val(p), val(q)) ==> *final(self) == *old(self),
            !old(self).connected(val(p), val(q)) ==> {
                let (a, b) = (old(self).hung_root(val(p), val(q)), old(self).kept_root(val(p), val(q)));
                let (linked, rank) = (old(self).parents().update(a, b), linked_rank(old(self).ranks@, a, b));
                &&& final(self).ranks@ == rank
                &&& final(self).parents() == compressed(compressed(linked, rank, val(p), b), rank, val(q), b)
                &&& final(self).size_values() == old(self).size_values().update(
                    b,
                    (old(self).size_values()[a] + old(self).size_values()[b]) as usize,
                ).update(a, 0usize)
                &&& forall|j: int|
                    0 <= j < old(self).count() ==> #[trigger] final(self).root_of(j) == if old(self).root_of(j) == a {
                        b
                    } else {
                        old(self).root_of(j)
                    }
            },
    {
        let ghost n = self.count();
        let root_p = self.root(p);
        let root_q = self.root(q);
        if !root_p.same(root_q) {
            let ghost par = self.parents();
            let ghost rk = self.ranks@;
            proof {
                lemma_find_facts(par, rk, val(p));
                lemma_find_facts(par, rk, val(q));
            }
            let root_p_index = root_p.to_usize();
            let root_q_index = root_q.to_usize();
            let p_size = self.sizes[root_p_index];
            let q_size = self.sizes[root_q_index];
            let (new_root, new_root_index, new_subordinate_index) = if !p_size.less(q_size) {
                (root_p, root_p_index, root_q_index)
            } else {
                (root_q, root_q_index, root_p_index)
            };
            let ghost a = new_subordinate_index as int;
            let ghost b = new_root_index as int;
            proof {
                lemma_link(par, rk, a, b);
                lemma_class_finite(par.update(a, b), linked_rank(rk, a, b), b);
                assert(val(self.sizes@[a]) == class(par, rk, a).len());
                assert(val(self.sizes@[b]) == class(par, rk, b).len());
                T::lemma_range(self.size);
            }
            self.sizes[new_root_index] = p_size.plus(q_size);
            self.nodes[new_subordinate_index] = new_root;
            self.sizes[new_subordinate_index] = T::zero();
            self.ranks = Ghost(linked_rank(rk, a, b));
            proof {
                assert(self.parents() =~= par.update(a, b));
                assert forall|j: int| 0 <= j < n implies #[trigger] val(self.sizes@[j])
                    == if self.parents()[j] == j {
                    self.component(j).len() as int
                } else {
                    0
                } by {
                    if j != a && j != b {
                        assert(self.component(j) == class(par, rk, j));
                    }
                }
            }
            let ghost linked = *self;
            proof {
                assert(linked.size_values() =~= old(self).size_values().update(
                    b,
                    (old(self).size_values()[a] + old(self).size_values()[b]) as usize,
                ).update(a, 0usize));
            }
            self.compress_path(p, new_root);
            self.compress_path(q, new_root);
            assert forall|j: int| 0 <= j < n implies #[trigger] self.root_of(j) == linked.root_of(
                j,
            ) by {}
        }
    }

    /// Whether `p` and `q` are in the same component.
    pub fn is_connected(&self, p: T, q: T) -> (c: bool)
        requires
            self.wf(),
            val(p) < self.count(),
            val(q) < self.count(),
        ensures
            c == self.connected(val(p), val(q)),
    {
        let is_connected = self.root(p).same(self.root(q));
        is_connected
    }

    /// Follows parents from `p` up to its root.
    pub fn root(&self, p: T) -> (r: T)
        requires
            self.wf(),
            val(p) < self.count(),
        ensures
            val(r) == self.root_of(val(p)),
    {
        let ghost par = self.parents();
        let ghost rk = self.ranks@;
        let mut cur = p;
        loop
            invariant
                self.wf(),
                par == self.parents(),
                rk == self.ranks@,
                0 <= val(cur) < self.count(),
                find(par, rk, val(cur)) == find(par, rk, val(p)),
            decreases self.count() - rk[val(cur)],
        {
            let parent = self.nodes[cur.to_usize()];
            proof {
                lemma_find_facts(par, rk, val(cur));
            }
            if parent.same(cur) {
                return cur;
            }
            cur = parent;
        }
    }

    /// Points every node on the path from `from` straight at `root`, the root of `from`.
    fn compress_path(&mut self, from: T, root: T)
        requires
            old(self).wf(),
            val(from) < old(self).count(),
            val(root) == old(self).root_of(val(from)),
        ensures
            final(self).wf(),
            final(self).count() == old(self).count(),
            final(self).size == old(self).size,
            final(self).sizes == old(self).sizes,
            final(self).ranks@ == old(self).ranks@,
            final(self).parents() == compressed(old(self).parents(), old(self).ranks@, val(from), val(root)),
            forall|j: int|
                0 <= j < old(self).count() ==> #[trigger] final(self).root_of(j) == old(self).root_of(j),
    {
        let ghost n = self.count();
        let ghost orig = self.parents();
        let ghost rk = self.ranks@;
        let ghost start = val(from);
        let mut i = from;
        proof {
            lemma_find_facts(orig, rk, val(i));
        }
        loop
            invariant
                self.wf(),
                self.count() == n,
                self.size == old(self).size,
                self.sizes == old(self).sizes,
                self.ranks@ == rk,
                rk == old(self).ranks@,
                n == old(self).count(),
                orig == old(self).parents(),
                0 <= val(i) < n,
                0 <= val(root) < n,
                self.parents()[val(root)] == val(root),
                find(self.parents(), rk, val(i)) == val(root),
                forall|j: int|
                    0 <= j < n ==> #[trigger] find(self.parents(), rk, j) == find(orig, rk, j),
                forest_wf(orig, rk),
                orig.len() == n,
                0 <= start < n,
                start == val(from),
                find(orig, rk, start) == val(root),
                on_path(orig, rk, start, val(i)),
                forall|j: int|
                    0 <= j < n ==> #[trigger] self.parents()[j] == if on_path(orig, rk, start, j) && !on_path(
                        orig,
                        rk,
                        val(i),
                        j,
                    ) {
                        val(root)
                    } else {
                        orig[j]
                    },
            decreases n - rk[val(i)],
        {
            let i_index = i.to_usize();
            let i_parent = self.nodes[i_index];
            let ghost cur = self.parents();
            proof {
                assert(on_path(orig, rk, val(i), val(i)));
                assert(cur[val(i)] == orig[val(i)]);
                assert(cur[val(i)] == val(i_parent));
            }
            if i_parent.same(root) {
                proof {
                    assert forall|j: int| 0 <= j < n && #[trigger] on_path(orig, rk, val(i), j) implies j == val(i) || j
                        == val(root) by {
                        if j != val(i) {
                            assert(steps_up(orig, rk, val(i)));
                            assert(orig[val(i)] == val(root));
                            assert(on_path(orig, rk, val(root), j));
                            lemma_find_facts(orig, rk, start);
                            assert(orig[val(root)] == val(root));
                            assert(!steps_up(orig, rk, val(root)));
                        }
                    }
                    lemma_find_facts(orig, rk, start);
                    assert(self.parents() =~= compressed(orig, rk, start, val(root)));
                }
                return;
            }
            let ghost before = *self;
            proof {
                lemma_find_facts(cur, rk, i_index as int);
                lemma_compress(cur, rk, i_index as int);
                assert(steps_up(orig, rk, val(i)));
                assert forall|j: int| 0 <= j < n implies #[trigger] on_path(orig, rk, val(i), j) == (j == val(i)
                    || on_path(orig, rk, val(i_parent), j)) by {
                }
                if on_path(orig, rk, val(i_parent), val(i)) {
                    lemma_on_path_rank(orig, rk, val(i_parent), val(i));
                }
                lemma_on_path_step(orig, rk, start, val(i));
            }
            self.nodes[i_index] = root;
            proof {
                assert(self.parents() =~= cur.update(i_index as int, val(root)));
                assert forall|j: int| 0 <= j < n implies #[trigger] find(self.parents(), rk, j)
                    == find(orig, rk, j) by {
                    assert(find(cur.update(i_index as int, find(cur, rk, i_index as int)), rk, j)
                        == find(cur, rk, j));
                    assert(find(before.parents(), rk, j) == find(orig, rk, j));
                }
                assert forall|j: int| 0 <= j < n implies #[trigger] val(self.sizes@[j])
                    == if self.parents()[j] == j {
                    self.component(j).len() as int
                } else {
                    0
                } by {
                    assert(self.component(j) == class(cur, rk, j));
                    assert(val(before.sizes@[j]) == if before.parents()[j] == j {
                        before.component(j).len() as int
                    } else {
                        0
                    });
                }
                assert(steps_up(cur, rk, i_index as int));
            }
            i = i_parent;
        }
    }

    /// Joins, in order, the components of each pair.
    pub fn union_list(&mut self, pairs: &[(usize, usize)])
        requires
            old(self).wf(),
            forall|k: int|
                0 <= k < pairs@.len() ==> (#[trigger] pairs@[k]).0 < old(self).count() && pairs@[k].1
                    < old(self).count(),
        ensures
            final(self).wf(),
            final(self).count() == old(self).count(),
            final(self).size == old(self).size,
            forall|a: int, b: int|
                0 <= a < old(self).count() && 0 <= b < old(self).count() ==> #[trigger] final(self).connected(a, b)
                    == joined_all(old(self).conn_rel(), pairs@)(a, b),
    {
        let ghost c0 = old(self).conn_rel();
        let ghost n = self.count();
        for k in 0..pairs.len()
            invariant
                self.wf(),
                self.count() == n,
                n == old(self).count(),
                self.size == old(self).size,
                c0 == old(self).conn_rel(),
                forall|j: int|
                    0 <= j < pairs@.len() ==> (#[trigger] pairs@[j]).0 < n && pairs@[j].1 < n,
                forall|a: int, b: int|
                    0 <= a < n && 0 <= b < n ==> #[trigger] self.connected(a, b) == joined_all(
                        c0,
                        pairs@.take(k as int),
                    )(a, b),
        {
            let (p, q) = pairs[k];
            let ghost before = *self;
            proof {
                T::lemma_range(self.size);
            }
            self.union(T::from_usize(p), T::from_usize(q));
            proof {
                let prev = joined_all(c0, pairs@.take(k as int));
                assert(pairs@.take(k + 1).drop_last() =~= pairs@.take(k as int));
                law_joined_keeps_agreement(
                    before.conn_rel(),
                    prev,
                    n as int,
                    p as int,
                    q as int,
                );
                assert forall|a: int, b: int| 0 <= a < n && 0 <= b < n implies #[trigger] self.connected(
                    a,
                    b,
                ) == joined_all(c0, pairs@.take(k + 1))(a, b) by {
                    assert(joined(before.conn_rel(), p as int, q as int, a, b)
                        == joined(prev, p as int, q as int, a, b));
                }
            }
        }
        proof {
            assert(pairs@.take(pairs@.len() as int) =~= pairs@);
        }
    }

    /// How many of the pairs are connected.
    pub fn count_is_connected_list(&mut self, pairs: &[(usize, usize)]) -> (count: usize)
        requires
            old(self).wf(),
            forall|k: int|
                0 <= k < pairs@.len() ==> (#[trigger] pairs@[k]).0 < old(self).count() && pairs@[k].1
                    < old(self).count(),
        ensures
            *final(self) == *old(self),
            count == count_connected(old(self).conn_rel(), pairs@),
    {
        let ghost c0 = self.conn_rel();
        let mut count: usize = 0;
        for k in 0..pairs.len()
            invariant
                self.wf(),
                c0 == self.conn_rel(),
                forall|j: int|
                    0 <= j < pairs@.len() ==> (#[trigger] pairs@[j]).0 < self.count() && pairs@[j].1
                        < self.count(),
                count == count_connected(c0, pairs@.take(k as int)),
                count <= k,
        {
            let (p, q) = pairs[k];
            proof {
                T::lemma_range(self.size);
                assert(pairs@.take(k + 1).drop_last() =~= pairs@.take(k as int));
            }
            if self.is_connected(T::from_usize(p), T::from_usize(q)) {
                count = count + 1;
            }
        }
        proof {
            assert(pairs@.take(pairs@.len() as int) =~= pairs@);
        }
        count
    }

    /// The parent array with every node as a `usize`.
    fn parents_usize(&self) -> (v: Vec<usize>)
        requires
            self.wf(),
        ensures
            as_parents(v@) == self.parents(),
            forall|i: int| 0 <= i < v@.len() ==> #[trigger] v@[i] < v@.len(),
    {
        let n = self.nodes.len();
        let mut v: Vec<usize> = Vec::with_capacity(n);
        for i in 0..n
            invariant
                self.wf(),
                n == self.count(),
                v@.len() == i,
                forall|k: int| 0 <= k < i ==> #[trigger] v@[k] == self.parents()[k],
        {
            proof {
                assert(0 <= self.parents()[i as int] < n);
            }
            v.push(self.nodes[i].to_usize());
        }
        proof {
            assert(as_parents(v@) =~= self.parents());
        }
        v
    }

    /// Sum over all nodes of the number of parent steps to the root.
    pub fn tree_depth_total(&self) -> (total: u128)
        requires
            self.wf(),
        ensures
            total == depth_sum(self.parents(), self.ranks@, self.count()),
    {
        let v = self.parents_usize();
        total_depth(&v, self.ranks)
    }

    /// The root of each node, as a key for grouping.
    pub open spec fn root_keys(&self) -> Seq<usize> {
        Seq::new(self.count(), |i: int| self.root_of(i) as usize)
    }

    /// The components in ascending order of their roots, each listing its nodes ascending.
    pub fn get_components(&self) -> (components: Vec<Vec<T>>)
        requires
            self.wf(),
        ensures
            grouped_by_key(
                self.root_keys(),
                self.count(),
                components@.map_values(|g: Vec<T>| g@.map_values(|x: T| x.index_value() as usize)),
            ),
    {
        let v = self.parents_usize();
        let n = v.len();
        let mut roots: Vec<usize> = Vec::with_capacity(n);
        for i in 0..n
            invariant
                self.wf(),
                n == self.count(),
                as_parents(v@) == self.parents(),
                roots@.len() == i,
                forall|k: int| 0 <= k < i ==> #[trigger] roots@[k] == self.root_of(k) && roots@[k] < n,
        {
            let r = walk_to_root(&v, self.ranks, i);
            proof {
                lemma_find_facts(self.parents(), self.ranks@, i as int);
            }
            roots.push(r);
        }
        proof {
            assert(roots@ =~= self.root_keys());
        }
        let groups = group_by_key(&roots, n);
        let ghost gv = groups@.map_values(|g: Vec<usize>| g@);
        let mut components: Vec<Vec<T>> = Vec::with_capacity(groups.len());
        for k in 0..groups.len()
            invariant
                gv == groups@.map_values(|g: Vec<usize>| g@),
                grouped_by_key(self.root_keys(), n as nat, gv),
                n == self.count(),
                n <= usize::MAX,
                self.wf(),
                components@.len() == k,
                forall|j: int|
                    0 <= j < k ==> (#[trigger] components@[j])@.map_values(
                        |x: T| x.index_value() as usize,
                    ) == gv[j],
        {
            let group = &groups[k];
            proof {
                assert(gv[k as int] == group@);
                lemma_members_bound(self.root_keys(), present_keys(self.root_keys(), n as nat)[k as int], n as nat);
            }
            let mut converted: Vec<T> = Vec::with_capacity(group.len());
            for j in 0..group.len()
                invariant
                    converted@.len() == j,
                    forall|m: int| 0 <= m < j ==> (#[trigger] converted@[m]).index_value() == group@[m],
                    forall|m: int| 0 <= m < group@.len() ==> #[trigger] group@[m] < n,
                    n == self.count(),
                    self.wf(),
            {
                proof {
                    T::lemma_range(self.size);
                }
                converted.push(T::from_usize(group[j]));
            }
            proof {
                assert(converted@.map_values(|x: T| x.index_value() as usize) =~= gv[k as int]);
            }
            components.push(converted);
        }
        proof {
            assert(components@.map_values(|g: Vec<T>| g@.map_values(|x: T| x.index_value() as usize))
                =~= gv);
        }
        components
    }

    /// The sizes as `usize` values.
    pub open spec fn size_values(&self) -> Seq<usize> {
        Seq::new(self.sizes@.len(), |i: int| self.sizes@[i].index_value() as usize)
    }

    /// The roots of the `limit` largest components with more than one node, largest first and,
    /// on equal sizes, smallest root first.
    pub fn get_roots_of_largest_components(&self, limit: usize) -> (roots: Vec<T>)
        requires
            self.wf(),
        ensures
            largest_first(
                self.size_values(),
                limit as nat,
                roots@.map_values(|x: T| x.index_value() as usize),
            ),
            forall|k: int| 0 <= k < roots@.len() ==> val(#[trigger] roots@[k]) < self.count(),
    {
        let n = self.sizes.len();
        let mut sizes: Vec<usize> = Vec::with_capacity(n);
        for i in 0..n
            invariant
                self.wf(),
                n == self.count(),
                sizes@.len() == i,
                forall|k: int| 0 <= k < i ==> #[trigger] sizes@[k] == self.size_values()[k],
        {
            proof {
                lemma_class_finite(self.parents(), self.ranks@, i as int);
                assert(val(self.sizes@[i as int]) <= n);
            }
            sizes.push(self.sizes[i].to_usize());
        }
        proof {
            assert(sizes@ =~= self.size_values());
        }
        let indices = largest_first_indices(&sizes, limit);
        let ghost iv = indices@;
        proof {
            assert forall|j: int| 0 <= j < iv.len() implies #[trigger] iv[j] < n by {
                assert(is_candidate(sizes@, iv[j] as int));
            }
        }
        let mut roots: Vec<T> = Vec::with_capacity(indices.len());
        for k in 0..indices.len()
            invariant
                iv == indices@,
                largest_first(sizes@, limit as nat, iv),
                sizes@.len() == n,
                n == self.count(),
                self.wf(),
                roots@.len() == k,
                forall|j: int| 0 <= j < k ==> (#[trigger] roots@[j]).index_value() == iv[j],
                forall|j: int| 0 <= j < iv.len() ==> #[trigger] iv[j] < n,
        {
            proof {
                T::lemma_range(self.size);
                assert(is_candidate(sizes@, iv[k as int] as int));
            }
            roots.push(T::from_usize(indices[k]));
        }
        proof {
            assert(roots@.map_values(|x: T| x.index_value() as usize) =~= iv);
        }
        roots
    }
}

/// The pairs with both numbers as node values; every number must fit `T`.
pub fn converted_pairs<T: NodeIndex>(pairs: &[(usize, usize)]) -> (converted: Vec<(T, T)>)
    requires
        forall|i: int| 0 <= i < pairs@.len() ==> #[trigger] pairs@[i].0 <= T::max_value() && pairs@[i].1
            <= T::max_value(),
    ensures
        converted@.len() == pairs@.len(),
        forall|i: int|
            0 <= i < pairs@.len() ==> val((#[trigger] converted@[i]).0) == pairs@[i].0 && val(converted@[i].1)
                == pairs@[i].1,
{
    let mut converted: Vec<(T, T)> = Vec::with_capacity(pairs.len());
    for i in 0..pairs.len()
        invariant
            converted@.len() == i,
            forall|k: int| 0 <= k < pairs@.len() ==> #[trigger] pairs@[k].0 <= T::max_value() && pairs@[k].1
                <= T::max_value(),
            forall|k: int|
                0 <= k < i ==> val((#[trigger] converted@[k]).0) == pairs@[k].0 && val(converted@[k].1)
                    == pairs@[k].1,
    {
        let (p, q) = pairs[i];
        converted.push((T::from_usize(p), T::from_usize(q)));

    }
    converted
}

} // verus!
