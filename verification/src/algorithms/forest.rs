//! The model shared by the tree-based union-find structures: a parent array read as a forest.
//!
//! Each node points at its parent; a root points at itself. A ghost rank, strictly increasing
//! from child to parent and bounded by the node count, shows that every walk towards the root
//! ends, and it gives `find` its measure.
use vstd::prelude::*;
use vstd::set_lib::*;

verus! {

/// `i` is a node whose parent step is allowed: the parent is another node of higher rank.
pub open spec fn steps_up(parent: Seq<int>, rank: Seq<nat>, i: int) -> bool {
    &&& 0 <= i < parent.len()
    &&& 0 <= parent[i] < parent.len()
    &&& parent[i] != i
    &&& rank[i] < rank[parent[i]]
    &&& rank[parent[i]] < parent.len()
}

/// The root reached from `i` by following parents.
pub open spec fn find(parent: Seq<int>, rank: Seq<nat>, i: int) -> int
    decreases parent.len() - rank[i],
{
    if steps_up(parent, rank, i) {
        find(parent, rank, parent[i])
    } else {
        i
    }
}

/// Number of parent steps from `i` to its root.
pub open spec fn depth(parent: Seq<int>, rank: Seq<nat>, i: int) -> nat
    decreases parent.len() - rank[i],
{
    if steps_up(parent, rank, i) {
        1 + depth(parent, rank, parent[i])
    } else {
        0
    }
}

/// `j` lies on the walk from `i` up to its root, both ends included.
pub open spec fn on_path(parent: Seq<int>, rank: Seq<nat>, i: int, j: int) -> bool
    decreases parent.len() - rank[i],
{
    if i == j {
        true
    } else if steps_up(parent, rank, i) {
        on_path(parent, rank, parent[i], j)
    } else {
        false
    }
}

/// The parents after every node on the walk from `i` up to its root points at `root`.
pub open spec fn compressed(parent: Seq<int>, rank: Seq<nat>, i: int, root: int) -> Seq<int> {
    Seq::new(
        parent.len(),
        |j: int|
            if on_path(parent, rank, i, j) {
                root
            } else {
                parent[j]
            },
    )
}

/// The parents, ranks and component sizes after joining the components of `p` and `q`: the
/// root of the smaller component (that of `q` on equal sizes) is hung under the other root,
/// which takes the sizes of both; with `compress`, every node on the walks from `p` and from
/// `q` is then pointed straight at it.
pub open spec fn union_model(m: (Seq<int>, Seq<nat>, Seq<usize>), compress: bool, p: int, q: int) -> (
    Seq<int>,
    Seq<nat>,
    Seq<usize>,
) {
    let (rp, rq) = (find(m.0, m.1, p), find(m.0, m.1, q));
    if rp == rq {
        m
    } else {
        let (a, b) = if m.2[rp] < m.2[rq] {
            (rp, rq)
        } else {
            (rq, rp)
        };
        let rank = linked_rank(m.1, a, b);
        let linked = m.0.update(a, b);
        (
            if compress {
                compressed(compressed(linked, rank, p, b), rank, q, b)
            } else {
                linked
            },
            rank,
            m.2.update(b, (m.2[a] + m.2[b]) as usize).update(a, 0usize),
        )
    }
}

/// The walk only climbs in rank.
pub proof fn lemma_on_path_rank(parent: Seq<int>, rank: Seq<nat>, i: int, j: int)
    requires
        on_path(parent, rank, i, j),
    ensures
        rank[i] <= rank[j],
    decreases parent.len() - rank[i],
{
    if i != j {
        lemma_on_path_rank(parent, rank, parent[i], j);
    }
}

/// The nodes whose root is `r`.
pub open spec fn class(parent: Seq<int>, rank: Seq<nat>, r: int) -> Set<int> {
    Set::new(|j: int| 0 <= j < parent.len() && find(parent, rank, j) == r)
}

pub open spec fn is_root(parent: Seq<int>, i: int) -> bool {
    0 <= i < parent.len() && parent[i] == i
}

/// A well-formed forest over the nodes `0..parent.len()`.
pub open spec fn forest_wf(parent: Seq<int>, rank: Seq<nat>) -> bool {
    &&& parent.len() == rank.len()
    &&& forall|i: int| 0 <= i < parent.len() ==> 0 <= #[trigger] parent[i] < parent.len()
    &&& forall|i: int| 0 <= i < parent.len() ==> #[trigger] rank[i] < parent.len()
    &&& forall|i: int|
        0 <= i < parent.len() && #[trigger] parent[i] != i ==> rank[i] < rank[parent[i]]
    &&& forall|r: int|
        #[trigger] is_root(parent, r) ==> rank[r] < class(parent, rank, r).len()
}

/// The connectivity after joining the classes of `p` and `q` in the relation `conn`.
pub open spec fn joined(conn: spec_fn(int, int) -> bool, p: int, q: int, a: int, b: int) -> bool {
    conn(a, b) || (conn(a, p) && conn(q, b)) || (conn(a, q) && conn(p, b))
}

/// Ranks after hanging root `a` under root `b`.
pub open spec fn linked_rank(rank: Seq<nat>, a: int, b: int) -> Seq<nat> {
    rank.update(b, if rank[b] > rank[a] { rank[b] } else { (rank[a] + 1) as nat })
}

/// A parent array of `usize` read as integers.
pub open spec fn as_parents(nodes: Seq<usize>) -> Seq<int> {
    Seq::new(nodes.len(), |i: int| nodes[i] as int)
}

/// Follows parents from `p` up to its root.
pub(crate) fn walk_to_root(nodes: &Vec<usize>, Ghost(ranks): Ghost<Seq<nat>>, p: usize) -> (r: usize)
    requires
        forest_wf(as_parents(nodes@), ranks),
        p < nodes@.len(),
    ensures
        r == find(as_parents(nodes@), ranks, p as int),
        is_root(as_parents(nodes@), r as int),
{
    let mut p = p;
    let ghost start = p as int;
    let ghost par = as_parents(nodes@);
    while p != nodes[p]
        invariant
            forest_wf(par, ranks),
            par == as_parents(nodes@),
            p < nodes@.len(),
            find(par, ranks, p as int) == find(par, ranks, start),
        decreases nodes@.len() - ranks[p as int],
    {
        proof {
            lemma_find_facts(par, ranks, p as int);
        }
        p = nodes[p];
    }
    proof {
        lemma_find_facts(par, ranks, p as int);
    }
    p
}

/// Points every node on the path from `i` straight at `root`, the root of `i`; no node's root
/// changes.
pub(crate) fn compress_to_root(
    nodes: &mut Vec<usize>,
    Ghost(ranks): Ghost<Seq<nat>>,
    i: usize,
    root: usize,
)
    requires
        forest_wf(as_parents(old(nodes)@), ranks),
        i < old(nodes)@.len(),
        root == find(as_parents(old(nodes)@), ranks, i as int),
    ensures
        forest_wf(as_parents(final(nodes)@), ranks),
        final(nodes)@.len() == old(nodes)@.len(),
        forall|j: int|
            0 <= j < old(nodes)@.len() ==> #[trigger] find(as_parents(final(nodes)@), ranks, j)
                == find(as_parents(old(nodes)@), ranks, j),
        forall|r: int| #[trigger]
            class(as_parents(final(nodes)@), ranks, r) == class(as_parents(old(nodes)@), ranks, r),
        forall|j: int|
            0 <= j < old(nodes)@.len() ==> (#[trigger] final(nodes)@[j] == j <==> old(nodes)@[j]
                == j),
        as_parents(final(nodes)@) == compressed(as_parents(old(nodes)@), ranks, i as int, root as int),
{
    let ghost start = i as int;
    let mut i = i;
    let ghost n = nodes@.len();
    let ghost orig = as_parents(nodes@);
    while i != nodes[i]
        invariant
            forest_wf(as_parents(nodes@), ranks),
            forest_wf(orig, ranks),
            nodes@.len() == n,
            orig == as_parents(old(nodes)@),
            orig.len() == n,
            i < n,
            0 <= start < n,
            on_path(orig, ranks, start, i as int),
            forall|j: int|
                0 <= j < n ==> #[trigger] as_parents(nodes@)[j] == if on_path(orig, ranks, start, j) && !on_path(
                    orig,
                    ranks,
                    i as int,
                    j,
                ) {
                    root as int
                } else {
                    orig[j]
                },
            find(as_parents(nodes@), ranks, i as int) == root,
            forall|j: int|
                0 <= j < n ==> #[trigger] find(as_parents(nodes@), ranks, j) == find(orig, ranks, j),
            forall|r: int| #[trigger] class(as_parents(nodes@), ranks, r) == class(orig, ranks, r),
            forall|j: int| 0 <= j < n ==> (#[trigger] nodes@[j] == j <==> old(nodes)@[j] == j),
        decreases n - ranks[i as int],
    {
        let ghost cur = as_parents(nodes@);
        let ghost before = nodes@;
        proof {
            lemma_find_facts(cur, ranks, i as int);
            lemma_compress(cur, ranks, i as int);
        }
        let next_i = nodes[i];
        proof {
            assert(on_path(orig, ranks, i as int, i as int));
            assert(cur[i as int] == orig[i as int]);
            assert(steps_up(orig, ranks, i as int));
            assert forall|j: int| 0 <= j < n implies #[trigger] on_path(orig, ranks, i as int, j) == (j == i
                || on_path(orig, ranks, next_i as int, j)) by {
                assert(orig[i as int] == next_i);
            }
            if on_path(orig, ranks, next_i as int, i as int) {
                lemma_on_path_rank(orig, ranks, next_i as int, i as int);
            }
            lemma_on_path_step(orig, ranks, start, i as int);
        }
        nodes[i] = root;
        proof {
            assert(as_parents(nodes@) =~= cur.update(i as int, root as int));
            assert forall|j: int| 0 <= j < n implies #[trigger] find(as_parents(nodes@), ranks, j)
                == find(orig, ranks, j) by {
                assert(find(cur.update(i as int, find(cur, ranks, i as int)), ranks, j) == find(
                    cur,
                    ranks,
                    j,
                ));
                assert(find(as_parents(before), ranks, j) == find(orig, ranks, j));
            }
            assert forall|r: int| #[trigger] class(as_parents(nodes@), ranks, r) == class(
                orig,
                ranks,
                r,
            ) by {
                assert(class(cur.update(i as int, find(cur, ranks, i as int)), ranks, r) == class(
                    cur,
                    ranks,
                    r,
                ));
                assert(class(as_parents(before), ranks, r) == class(orig, ranks, r));
            }
            assert forall|j: int| 0 <= j < n implies (#[trigger] nodes@[j] == j <==> old(nodes)@[j]
                == j) by {
                assert(before[j] == j <==> old(nodes)@[j] == j);
            }
        }
        i = next_i;
    }
    proof {
        assert(orig[i as int] == i as int);
        assert forall|j: int| 0 <= j < n implies !(#[trigger] on_path(orig, ranks, i as int, j)) || j == i as int by {
        }
        lemma_on_path_root(orig, ranks, start, i as int);
        assert(as_parents(nodes@) =~= compressed(orig, ranks, start, root as int));
    }
}

/// Walking on from a node of the walk from `s` stays on that walk.
pub proof fn lemma_on_path_step(parent: Seq<int>, rank: Seq<nat>, s: int, i: int)
    requires
        on_path(parent, rank, s, i),
        steps_up(parent, rank, i),
    ensures
        on_path(parent, rank, s, parent[i]),
    decreases parent.len() - rank[s],
{
    if s != i {
        lemma_on_path_step(parent, rank, parent[s], i);
    } else {
        assert(on_path(parent, rank, parent[i], parent[i]));
    }
}

/// The walk from `s` ends at its root.
pub proof fn lemma_on_path_root(parent: Seq<int>, rank: Seq<nat>, s: int, i: int)
    requires
        on_path(parent, rank, s, i),
        !steps_up(parent, rank, i),
    ensures
        find(parent, rank, s) == i,
    decreases parent.len() - rank[s],
{
    if s != i {
        lemma_on_path_root(parent, rank, parent[s], i);
    }
}

/// Sum of the depths of the nodes `0..upto`.
pub open spec fn depth_sum(parent: Seq<int>, rank: Seq<nat>, upto: nat) -> nat
    decreases upto,
{
    if upto == 0 {
        0
    } else {
        depth_sum(parent, rank, (upto - 1) as nat) + depth(parent, rank, upto - 1)
    }
}

/// Sum over all nodes of the number of parent steps to the root.
pub(crate) fn total_depth(nodes: &Vec<usize>, Ghost(ranks): Ghost<Seq<nat>>) -> (total: u128)
    requires
        forest_wf(as_parents(nodes@), ranks),
    ensures
        total == depth_sum(as_parents(nodes@), ranks, nodes@.len()),
{
    let n = nodes.len();
    let ghost par = as_parents(nodes@);
    let mut sum: u128 = 0;
    for i in 0..n
        invariant
            n == nodes@.len(),
            par == as_parents(nodes@),
            forest_wf(par, ranks),
            sum == depth_sum(par, ranks, i as nat),
            sum <= i * n,
    {
        let mut p = i;
        let mut d: usize = 0;
        while p != nodes[p]
            invariant
                n == nodes@.len(),
                par == as_parents(nodes@),
                forest_wf(par, ranks),
                p < n,
                i < n,
                depth(par, ranks, i as int) == d + depth(par, ranks, p as int),
                d + ranks[i as int] <= ranks[p as int],
            decreases n - ranks[p as int],
        {
            proof {
                lemma_find_facts(par, ranks, p as int);
                assert(steps_up(par, ranks, p as int));
            }
            p = nodes[p];
            d = d + 1;
        }
        proof {
            assert(!steps_up(par, ranks, p as int));
            assert(d < n);
            assert(sum + d <= (i + 1) * n) by (nonlinear_arith)
                requires
                    sum <= i * n,
                    d < n,
            ;
            assert((i + 1) * n <= n * n) by (nonlinear_arith)
                requires
                    i < n,
            ;
            assert(n * n <= usize::MAX * usize::MAX) by (nonlinear_arith)
                requires
                    n <= usize::MAX,
            ;
        }
        sum = sum + d as u128;
    }
    sum
}

/// All ranks zero.
pub open spec fn zero_ranks(n: nat) -> Seq<nat> {
    Seq::new(n, |k: int| 0nat)
}

/// The forest where every node is its own root.
pub open spec fn singletons(n: nat) -> Seq<int> {
    Seq::new(n, |i: int| i)
}

pub proof fn lemma_find_facts(parent: Seq<int>, rank: Seq<nat>, i: int)
    requires
        forest_wf(parent, rank),
        0 <= i < parent.len(),
    ensures
        0 <= find(parent, rank, i) < parent.len(),
        is_root(parent, find(parent, rank, i)),
        find(parent, rank, find(parent, rank, i)) == find(parent, rank, i),
        parent[i] != i ==> rank[i] < rank[find(parent, rank, i)],
        parent[i] != i ==> find(parent, rank, i) == find(parent, rank, parent[i]),
        parent[i] == i ==> find(parent, rank, i) == i,
        depth(parent, rank, i) <= rank[find(parent, rank, i)] - rank[i],
    decreases parent.len() - rank[i],
{
    if parent[i] != i {
        assert(steps_up(parent, rank, i));
        lemma_find_facts(parent, rank, parent[i]);
    } else {
        assert(!steps_up(parent, rank, i));
    }
}

pub proof fn lemma_class_finite(parent: Seq<int>, rank: Seq<nat>, r: int)
    ensures
        class(parent, rank, r).finite(),
        class(parent, rank, r).len() <= parent.len(),
{
    lemma_int_range(0, parent.len() as int);
    lemma_len_subset(class(parent, rank, r), set_int_range(0, parent.len() as int));
}

/// Every node is its own root in the initial forest.
pub proof fn lemma_singletons_wf(n: nat)
    ensures
        forest_wf(singletons(n), zero_ranks(n)),
        forall|i: int| 0 <= i < n ==> #[trigger] find(singletons(n), zero_ranks(n), i) == i,
        forall|i: int|
            0 <= i < n ==> #[trigger] class(singletons(n), zero_ranks(n), i).len()
                == 1,
{
    let parent = singletons(n);
    let rank = zero_ranks(n);
    assert forall|i: int| 0 <= i < n implies #[trigger] find(parent, rank, i) == i by {
        assert(!steps_up(parent, rank, i));
    }
    assert forall|r: int| 0 <= r < n implies #[trigger] class(parent, rank, r).len() == 1 by {
        assert(class(parent, rank, r) =~= set![r]);
    }
}

/// Hanging root `a` under root `b` sends the class of `a` to `b` and leaves the rest alone.
pub proof fn lemma_link(parent: Seq<int>, rank: Seq<nat>, a: int, b: int)
    requires
        forest_wf(parent, rank),
        is_root(parent, a),
        is_root(parent, b),
        a != b,
    ensures
        forest_wf(parent.update(a, b), linked_rank(rank, a, b)),
        forall|i: int|
            0 <= i < parent.len() ==> #[trigger] find(parent.update(a, b), linked_rank(rank, a, b), i)
                == if find(parent, rank, i) == a {
                b
            } else {
                find(parent, rank, i)
            },
        class(parent.update(a, b), linked_rank(rank, a, b), b) == class(parent, rank, a) + class(
            parent,
            rank,
            b,
        ),
        class(parent.update(a, b), linked_rank(rank, a, b), b).len() == class(parent, rank, a).len()
            + class(parent, rank, b).len(),
        forall|r: int|
            r != a && r != b ==> #[trigger] class(parent.update(a, b), linked_rank(rank, a, b), r)
                == class(parent, rank, r),
{
    let p2 = parent.update(a, b);
    let r2 = linked_rank(rank, a, b);
    let n = parent.len();
    lemma_class_finite(parent, rank, a);
    lemma_class_finite(parent, rank, b);
    assert(class(parent, rank, a).contains(a)) by {
        lemma_find_facts(parent, rank, a);
    }
    assert(class(parent, rank, b).contains(b)) by {
        lemma_find_facts(parent, rank, b);
    }
    assert(class(parent, rank, a).disjoint(class(parent, rank, b)));
    lemma_set_disjoint_lens(class(parent, rank, a), class(parent, rank, b));
    lemma_int_range(0, n as int);
    lemma_len_subset(
        class(parent, rank, a) + class(parent, rank, b),
        set_int_range(0, n as int),
    );
    assert(r2[b] < n);
    assert forall|i: int| 0 <= i < n implies #[trigger] find(p2, r2, i) == if find(
        parent,
        rank,
        i,
    ) == a {
        b
    } else {
        find(parent, rank, i)
    } by {
        lemma_link_find(parent, rank, a, b, i);
    }
    assert(class(p2, r2, b) =~= class(parent, rank, a) + class(parent, rank, b));
    assert forall|r: int| r != a && r != b implies #[trigger] class(p2, r2, r) == class(
        parent,
        rank,
        r,
    ) by {
        assert(class(p2, r2, r) =~= class(parent, rank, r));
    }
    assert forall|i: int|
        0 <= i < p2.len() && #[trigger] p2[i] != i implies r2[i] < r2[p2[i]] by {
        if i != a {
            assert(parent[i] != i);
        }
    }
    assert forall|r: int| #[trigger] is_root(p2, r) implies r2[r] < class(p2, r2, r).len() by {
        assert(r != a);
        assert(is_root(parent, r));
        if r != b {
            assert(class(p2, r2, r) == class(parent, rank, r));
        }
    }
}

proof fn lemma_link_find(parent: Seq<int>, rank: Seq<nat>, a: int, b: int, i: int)
    requires
        forest_wf(parent, rank),
        is_root(parent, a),
        is_root(parent, b),
        a != b,
        0 <= i < parent.len(),
        linked_rank(rank, a, b)[b] < parent.len(),
    ensures
        find(parent.update(a, b), linked_rank(rank, a, b), i) == if find(parent, rank, i) == a {
            b
        } else {
            find(parent, rank, i)
        },
    decreases parent.len() - rank[i],
{
    let p2 = parent.update(a, b);
    let r2 = linked_rank(rank, a, b);
    lemma_find_facts(parent, rank, i);
    if parent[i] == i {
        if i == a {
            assert(!steps_up(p2, r2, b));
            assert(find(p2, r2, b) == b);
            assert(steps_up(p2, r2, a));
            assert(find(p2, r2, a) == find(p2, r2, b));
        } else {
            assert(!steps_up(p2, r2, i));
            assert(find(p2, r2, i) == i);
        }
    } else {
        assert(steps_up(parent, rank, i));
        assert(steps_up(p2, r2, i));
        lemma_link_find(parent, rank, a, b, parent[i]);
        assert(find(p2, r2, i) == find(p2, r2, parent[i]));
    }
}

/// Pointing `i` straight at its root changes no node's root.
pub proof fn lemma_compress(parent: Seq<int>, rank: Seq<nat>, i: int)
    requires
        forest_wf(parent, rank),
        0 <= i < parent.len(),
    ensures
        forest_wf(parent.update(i, find(parent, rank, i)), rank),
        forall|j: int|
            0 <= j < parent.len() ==> #[trigger] find(
                parent.update(i, find(parent, rank, i)),
                rank,
                j,
            ) == find(parent, rank, j),
        forall|r: int| #[trigger]
            class(parent.update(i, find(parent, rank, i)), rank, r) == class(parent, rank, r),
{
    let r = find(parent, rank, i);
    let p2 = parent.update(i, r);
    lemma_find_facts(parent, rank, i);
    assert forall|j: int| 0 <= j < parent.len() implies #[trigger] find(p2, rank, j) == find(
        parent,
        rank,
        j,
    ) by {
        lemma_compress_find(parent, rank, i, j);
    }
    assert forall|c: int| #[trigger] class(p2, rank, c) == class(parent, rank, c) by {
        assert(class(p2, rank, c) =~= class(parent, rank, c));
    }
    assert forall|k: int| 0 <= k < p2.len() && #[trigger] p2[k] != k implies rank[k] < rank[p2[k]] by {
        if k != i {
            assert(parent[k] != k);
        }
    }
    assert forall|c: int| #[trigger] is_root(p2, c) implies rank[c] < class(p2, rank, c).len() by {
        if c == i {
            assert(parent[i] == i);
        }
        assert(is_root(parent, c));
    }
}

proof fn lemma_compress_find(parent: Seq<int>, rank: Seq<nat>, i: int, j: int)
    requires
        forest_wf(parent, rank),
        0 <= i < parent.len(),
        0 <= j < parent.len(),
    ensures
        find(parent.update(i, find(parent, rank, i)), rank, j) == find(parent, rank, j),
    decreases parent.len() - rank[j],
{
    let r = find(parent, rank, i);
    let p2 = parent.update(i, r);
    lemma_find_facts(parent, rank, i);
    lemma_find_facts(parent, rank, j);
    if j == i {
        if parent[i] == i {
            assert(p2 =~= parent);
        } else {
            assert(!steps_up(p2, rank, r));
            assert(find(p2, rank, r) == r);
            assert(steps_up(p2, rank, i));
            assert(find(p2, rank, i) == find(p2, rank, r));
        }
    } else if parent[j] == j {
        assert(!steps_up(p2, rank, j));
        assert(find(p2, rank, j) == j);
    } else {
        assert(steps_up(parent, rank, j));
        assert(steps_up(p2, rank, j));
        lemma_compress_find(parent, rank, i, parent[j]);
        assert(find(p2, rank, j) == find(p2, rank, parent[j]));
    }
}

/// `conn` is reflexive, symmetric and transitive on the nodes `0..n`.
pub open spec fn is_equivalence(conn: spec_fn(int, int) -> bool, n: int) -> bool {
    &&& forall|a: int| 0 <= a < n ==> #[trigger] conn(a, a)
    &&& forall|a: int, b: int| 0 <= a < n && 0 <= b < n && #[trigger] conn(a, b) ==> conn(b, a)
    &&& forall|a: int, b: int, c: int|
        0 <= a < n && 0 <= b < n && 0 <= c < n && #[trigger] conn(a, b) && #[trigger] conn(b, c)
            ==> conn(a, c)
}

/// Joining the classes of `p` and `q` in an equivalence gives an equivalence that keeps every
/// old connection and connects `p` with `q`.
pub proof fn law_joined_is_equivalence(conn: spec_fn(int, int) -> bool, n: int, p: int, q: int)
    requires
        is_equivalence(conn, n),
        0 <= p < n,
        0 <= q < n,
    ensures
        is_equivalence(|a: int, b: int| joined(conn, p, q, a, b), n),
        joined(conn, p, q, p, q),
        forall|a: int, b: int|
            0 <= a < n && 0 <= b < n && #[trigger] conn(a, b) ==> joined(conn, p, q, a, b),
{
    let j = |a: int, b: int| joined(conn, p, q, a, b);
    assert(conn(p, p) && conn(q, q));
    assert forall|a: int, b: int, c: int|
        0 <= a < n && 0 <= b < n && 0 <= c < n && #[trigger] j(a, b) && #[trigger] j(b, c) implies j(
        a,
        c,
    ) by {
        if conn(a, b) && conn(b, c) {
            assert(conn(a, c));
        } else if conn(a, b) {
            if conn(b, p) && conn(q, c) {
                assert(conn(a, p));
            } else {
                assert(conn(a, q));
            }
        } else if conn(b, c) {
            if conn(a, p) && conn(q, b) {
                assert(conn(q, c));
            } else {
                assert(conn(p, c));
            }
        } else if conn(a, p) && conn(q, b) {
            if conn(b, p) && conn(q, c) {
                assert(conn(q, p));
                assert(conn(q, c));
            } else {
                assert(conn(b, q) && conn(q, b));
                assert(conn(p, c));
                assert(conn(a, c));
            }
        } else {
            if conn(b, p) && conn(q, c) {
                assert(conn(a, q) && conn(p, b));
                assert(conn(a, c));
            } else {
                assert(conn(b, q) && conn(p, c));
                assert(conn(q, b));
                assert(conn(p, p));
            }
        }
    }
}

/// Joining is the least change: any equivalence that holds every old connection and connects
/// `p` with `q` holds every joined connection.
pub proof fn law_joined_is_least(
    conn: spec_fn(int, int) -> bool,
    e: spec_fn(int, int) -> bool,
    n: int,
    p: int,
    q: int,
)
    requires
        is_equivalence(e, n),
        0 <= p < n,
        0 <= q < n,
        forall|a: int, b: int| 0 <= a < n && 0 <= b < n && #[trigger] conn(a, b) ==> e(a, b),
        e(p, q),
    ensures
        forall|a: int, b: int|
            0 <= a < n && 0 <= b < n && #[trigger] joined(conn, p, q, a, b) ==> e(a, b),
{
    assert forall|a: int, b: int|
        0 <= a < n && 0 <= b < n && #[trigger] joined(conn, p, q, a, b) implies e(a, b) by {
        if conn(a, b) {
        } else if conn(a, p) && conn(q, b) {
            assert(e(a, p) && e(q, b));
            assert(e(a, q));
        } else {
            assert(e(a, q) && e(p, b));
            assert(e(q, p));
            assert(e(a, p));
        }
    }
}

/// Two relations that agree before the same join agree after it.
pub proof fn law_joined_keeps_agreement(
    c1: spec_fn(int, int) -> bool,
    c2: spec_fn(int, int) -> bool,
    n: int,
    p: int,
    q: int,
)
    requires
        0 <= p < n,
        0 <= q < n,
        forall|a: int, b: int| 0 <= a < n && 0 <= b < n ==> #[trigger] c1(a, b) == c2(a, b),
    ensures
        forall|a: int, b: int|
            0 <= a < n && 0 <= b < n ==> #[trigger] joined(c1, p, q, a, b) == joined(c2, p, q, a, b),
{
    assert forall|a: int, b: int| 0 <= a < n && 0 <= b < n implies #[trigger] joined(c1, p, q, a, b)
        == joined(c2, p, q, a, b) by {
        assert(c1(a, b) == c2(a, b));
        assert(c1(a, p) == c2(a, p));
        assert(c1(q, b) == c2(q, b));
        assert(c1(a, q) == c2(a, q));
        assert(c1(p, b) == c2(p, b));
    }
}

/// The connectivity after joining, in order, the classes of each pair.
pub open spec fn joined_all(conn: spec_fn(int, int) -> bool, pairs: Seq<(usize, usize)>) -> spec_fn(
    int,
    int,
) -> bool
    decreases pairs.len(),
{
    if pairs.len() == 0 {
        conn
    } else {
        let prev = joined_all(conn, pairs.drop_last());
        |a: int, b: int| joined(prev, pairs.last().0 as int, pairs.last().1 as int, a, b)
    }
}

/// How many of the pairs are connected.
pub open spec fn count_connected(conn: spec_fn(int, int) -> bool, pairs: Seq<(usize, usize)>) -> nat
    decreases pairs.len(),
{
    if pairs.len() == 0 {
        0
    } else {
        count_connected(conn, pairs.drop_last()) + if conn(
            pairs.last().0 as int,
            pairs.last().1 as int,
        ) {
            1nat
        } else {
            0nat
        }
    }
}

/// Two connectivity relations that agree on `0..n` — such as those of any two union
/// structures just built, where each node is connected to itself alone — still agree after the
/// same unions made in the same order: quick-find, quick-union and weighted quick-union, with or
/// without path compression, and the generic union all answer `is_connected` alike.
pub proof fn law_same_unions_agree(
    c1: spec_fn(int, int) -> bool,
    c2: spec_fn(int, int) -> bool,
    n: int,
    pairs: Seq<(usize, usize)>,
)
    requires
        forall|a: int, b: int| 0 <= a < n && 0 <= b < n ==> #[trigger] c1(a, b) == c2(a, b),
        forall|k: int| 0 <= k < pairs.len() ==> (#[trigger] pairs[k]).0 < n && pairs[k].1 < n,
    ensures
        forall|a: int, b: int|
            0 <= a < n && 0 <= b < n ==> #[trigger] joined_all(c1, pairs)(a, b) == joined_all(c2, pairs)(a, b),
    decreases pairs.len(),
{
    if pairs.len() > 0 {
        let rest = pairs.drop_last();
        assert forall|k: int| 0 <= k < rest.len() implies (#[trigger] rest[k]).0 < n && rest[k].1 < n by {
            assert(rest[k] == pairs[k]);
        }
        law_same_unions_agree(c1, c2, n, rest);
        let (p, q) = (pairs.last().0 as int, pairs.last().1 as int);
        assert(pairs.last() == pairs[pairs.len() - 1]);
        law_joined_keeps_agreement(joined_all(c1, rest), joined_all(c2, rest), n, p, q);
    }
}

/// Relations that agree on `0..n` count the same connected pairs among pairs in `0..n`.
pub proof fn law_same_connected_count(
    c1: spec_fn(int, int) -> bool,
    c2: spec_fn(int, int) -> bool,
    n: int,
    pairs: Seq<(usize, usize)>,
)
    requires
        forall|a: int, b: int| 0 <= a < n && 0 <= b < n ==> #[trigger] c1(a, b) == c2(a, b),
        forall|k: int| 0 <= k < pairs.len() ==> (#[trigger] pairs[k]).0 < n && pairs[k].1 < n,
    ensures
        count_connected(c1, pairs) == count_connected(c2, pairs),
    decreases pairs.len(),
{
    if pairs.len() > 0 {
        let rest = pairs.drop_last();
        assert forall|k: int| 0 <= k < rest.len() implies (#[trigger] rest[k]).0 < n && rest[k].1 < n by {
            assert(rest[k] == pairs[k]);
        }
        law_same_connected_count(c1, c2, n, rest);
        assert(pairs.last() == pairs[pairs.len() - 1]);
        assert(c1(pairs.last().0 as int, pairs.last().1 as int) == c2(pairs.last().0 as int, pairs.last().1 as int));
    }
}

} // verus!
