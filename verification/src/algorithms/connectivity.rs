//! Reachability in an undirected graph over the nodes `0..n`, and why union-find computes it:
//! joining the classes of `p` and `q` in the reachability of a graph gives the reachability of
//! the graph with the edge `p`-`q` added.
use vstd::prelude::*;
use crate::algorithms::forest::{is_equivalence, joined, law_joined_is_equivalence};

verus! {

/// `u` and `v` are joined by an edge, in either direction.
pub open spec fn linked(edges: spec_fn(int, int) -> bool, u: int, v: int) -> bool {
    edges(u, v) || edges(v, u)
}

/// `path` is a non-empty walk over the nodes `0..n` along edges.
pub open spec fn is_path(edges: spec_fn(int, int) -> bool, n: int, path: Seq<int>) -> bool {
    &&& path.len() > 0
    &&& forall|i: int| 0 <= i < path.len() ==> 0 <= #[trigger] path[i] < n
    &&& forall|i: int| 0 <= i < path.len() - 1 ==> linked(edges, #[trigger] path[i], path[i + 1])
}

/// Some walk leads from `a` to `b`.
pub open spec fn reach(edges: spec_fn(int, int) -> bool, n: int, a: int, b: int) -> bool {
    exists|path: Seq<int>|
        #![trigger is_path(edges, n, path)]
        is_path(edges, n, path) && path[0] == a && path.last() == b
}

/// Reachability as a relation.
pub open spec fn reach_rel(edges: spec_fn(int, int) -> bool, n: int) -> spec_fn(int, int) -> bool {
    |a: int, b: int| reach(edges, n, a, b)
}

/// The graph with one more edge.
pub open spec fn with_edge(edges: spec_fn(int, int) -> bool, p: int, q: int) -> spec_fn(int, int) -> bool {
    |u: int, v: int| edges(u, v) || (u == p && v == q)
}

/// The graph without edges.
pub open spec fn no_edges() -> spec_fn(int, int) -> bool {
    |u: int, v: int| false
}

/// `conn` is the reachability of `edges` on the nodes `0..n`.
pub open spec fn is_reach_of(conn: spec_fn(int, int) -> bool, edges: spec_fn(int, int) -> bool, n: int) -> bool {
    forall|a: int, b: int| 0 <= a < n && 0 <= b < n ==> #[trigger] conn(a, b) == reach(edges, n, a, b)
}

proof fn lemma_path_concat(edges: spec_fn(int, int) -> bool, n: int, p1: Seq<int>, p2: Seq<int>)
    requires
        is_path(edges, n, p1),
        is_path(edges, n, p2),
        p1.last() == p2[0],
    ensures
        is_path(edges, n, p1 + p2.drop_first()),
        (p1 + p2.drop_first())[0] == p1[0],
        (p1 + p2.drop_first()).last() == p2.last(),
{
    let p = p1 + p2.drop_first();
    assert forall|i: int| 0 <= i < p.len() - 1 implies linked(edges, #[trigger] p[i], p[i + 1]) by {
        if i < p1.len() - 1 {
            assert(p[i] == p1[i] && p[i + 1] == p1[i + 1]);
        } else if i == p1.len() - 1 {
            assert(p[i] == p2[0] && p[i + 1] == p2[1]);
        } else {
            let j = i - p1.len() + 1;
            assert(p[i] == p2[j] && p[i + 1] == p2[j + 1]);
        }
    }
    assert forall|i: int| 0 <= i < p.len() implies 0 <= #[trigger] p[i] < n by {
        if i >= p1.len() {
            assert(p[i] == p2[i - p1.len() + 1]);
        }
    }
}

proof fn lemma_path_reverse(edges: spec_fn(int, int) -> bool, n: int, p: Seq<int>)
    requires
        is_path(edges, n, p),
    ensures
        is_path(edges, n, p.reverse()),
        p.reverse()[0] == p.last(),
        p.reverse().last() == p[0],
{
    let r = p.reverse();
    assert forall|i: int| 0 <= i < r.len() - 1 implies linked(edges, #[trigger] r[i], r[i + 1]) by {
        let j = p.len() - 2 - i;
        assert(r[i] == p[j + 1] && r[i + 1] == p[j]);
    }
    assert forall|i: int| 0 <= i < r.len() implies 0 <= #[trigger] r[i] < n by {
        assert(r[i] == p[p.len() - 1 - i]);
    }
}

/// Reachability is an equivalence on the nodes.
pub proof fn law_reach_is_equivalence(edges: spec_fn(int, int) -> bool, n: int)
    ensures
        is_equivalence(reach_rel(edges, n), n),
{
    assert forall|a: int| 0 <= a < n implies reach(edges, n, a, a) by {
        assert(is_path(edges, n, seq![a]));
    }
    assert forall|a: int, b: int| 0 <= a < n && 0 <= b < n && reach(edges, n, a, b) implies reach(
        edges,
        n,
        b,
        a,
    ) by {
        let p = choose|p: Seq<int>| is_path(edges, n, p) && p[0] == a && p.last() == b;
        lemma_path_reverse(edges, n, p);
    }
    assert forall|a: int, b: int, c: int|
        0 <= a < n && 0 <= b < n && 0 <= c < n && reach(edges, n, a, b) && reach(
            edges,
            n,
            b,
            c,
        ) implies reach(edges, n, a, c) by {
        let p1 = choose|p: Seq<int>| is_path(edges, n, p) && p[0] == a && p.last() == b;
        let p2 = choose|p: Seq<int>| is_path(edges, n, p) && p[0] == b && p.last() == c;
        lemma_path_concat(edges, n, p1, p2);
    }
}

/// Without edges a node reaches only itself.
pub proof fn lemma_reach_no_edges(n: int, a: int, b: int)
    requires
        0 <= a < n,
        0 <= b < n,
    ensures
        reach(no_edges(), n, a, b) == (a == b),
{
    if a == b {
        assert(is_path(no_edges(), n, seq![a]));
    } else if reach(no_edges(), n, a, b) {
        let p = choose|p: Seq<int>| is_path(no_edges(), n, p) && p[0] == a && p.last() == b;
        assert(p.len() > 1);
        assert(linked(no_edges(), p[0], p[1]));
    }
}

/// Graphs with the same edges, up to direction, have the same reachability.
pub proof fn lemma_reach_same_edges(e1: spec_fn(int, int) -> bool, e2: spec_fn(int, int) -> bool, n: int)
    requires
        forall|u: int, v: int| 0 <= u < n && 0 <= v < n ==> #[trigger] linked(e1, u, v) == linked(e2, u, v),
    ensures
        forall|a: int, b: int| #[trigger] reach(e1, n, a, b) == reach(e2, n, a, b),
{
    assert forall|a: int, b: int| #[trigger] reach(e1, n, a, b) implies reach(e2, n, a, b) by {
        let p = choose|p: Seq<int>| is_path(e1, n, p) && p[0] == a && p.last() == b;
        assert forall|i: int| 0 <= i < p.len() - 1 implies linked(e2, #[trigger] p[i], p[i + 1]) by {
            assert(linked(e1, p[i], p[i + 1]));
        }
        assert(is_path(e2, n, p));
    }
    assert forall|a: int, b: int| #[trigger] reach(e2, n, a, b) implies reach(e1, n, a, b) by {
        let p = choose|p: Seq<int>| is_path(e2, n, p) && p[0] == a && p.last() == b;
        assert forall|i: int| 0 <= i < p.len() - 1 implies linked(e1, #[trigger] p[i], p[i + 1]) by {
            assert(linked(e2, p[i], p[i + 1]));
        }
        assert(is_path(e1, n, p));
    }
}

/// More edges never separate nodes: what is reachable in a graph stays reachable in any graph
/// that holds its edges.
pub proof fn law_reach_monotone(e1: spec_fn(int, int) -> bool, e2: spec_fn(int, int) -> bool, n: int)
    requires
        forall|u: int, v: int| 0 <= u < n && 0 <= v < n && #[trigger] linked(e1, u, v) ==> linked(e2, u, v),
    ensures
        forall|a: int, b: int| #[trigger] reach(e1, n, a, b) ==> reach(e2, n, a, b),
{
    assert forall|a: int, b: int| #[trigger] reach(e1, n, a, b) implies reach(e2, n, a, b) by {
        let p = choose|p: Seq<int>| is_path(e1, n, p) && p[0] == a && p.last() == b;
        assert forall|i: int| 0 <= i < p.len() - 1 implies linked(e2, #[trigger] p[i], p[i + 1]) by {
            assert(linked(e1, p[i], p[i + 1]));
            assert(0 <= p[i] < n && 0 <= p[i + 1] < n);
        }
        assert(is_path(e2, n, p));
    }
}

/// Along a walk of the graph with the edge `p`-`q` added, every node is joined with the first.
proof fn lemma_path_joined(
    edges: spec_fn(int, int) -> bool,
    n: int,
    p: int,
    q: int,
    path: Seq<int>,
)
    requires
        0 <= p < n,
        0 <= q < n,
        is_path(with_edge(edges, p, q), n, path),
    ensures
        joined(reach_rel(edges, n), p, q, path[0], path.last()),
    decreases path.len(),
{
    let conn = reach_rel(edges, n);
    law_reach_is_equivalence(edges, n);
    law_joined_is_equivalence(conn, n, p, q);
    let j = |a: int, b: int| joined(conn, p, q, a, b);
    if path.len() == 1 {
        assert(conn(path[0], path[0]));
    } else {
        let prefix = path.drop_last();
        assert forall|i: int| 0 <= i < prefix.len() - 1 implies linked(
            with_edge(edges, p, q),
            #[trigger] prefix[i],
            prefix[i + 1],
        ) by {
            assert(prefix[i] == path[i] && prefix[i + 1] == path[i + 1]);
        }
        lemma_path_joined(edges, n, p, q, prefix);
        let u = path[path.len() - 2];
        let v = path.last();
        assert(linked(with_edge(edges, p, q), u, v));
        assert(j(u, v)) by {
            if linked(edges, u, v) {
                assert(is_path(edges, n, seq![u, v]));
                assert(conn(u, v));
            } else if u == p && v == q {
            } else {
                assert(v == p && u == q);
                assert(j(p, q));
            }
        }
        assert(j(path[0], u));
    }
}

/// Joining the classes of `p` and `q` in the reachability of a graph gives the reachability of
/// the graph with the edge `p`-`q` added.
pub proof fn law_union_adds_edge(edges: spec_fn(int, int) -> bool, n: int, p: int, q: int)
    requires
        0 <= p < n,
        0 <= q < n,
    ensures
        forall|a: int, b: int|
            0 <= a < n && 0 <= b < n ==> #[trigger] joined(reach_rel(edges, n), p, q, a, b) == reach(
                with_edge(edges, p, q),
                n,
                a,
                b,
            ),
{
    let conn = reach_rel(edges, n);
    let e2 = with_edge(edges, p, q);
    law_reach_is_equivalence(e2, n);
    assert forall|a: int, b: int| 0 <= a < n && 0 <= b < n implies #[trigger] joined(
        conn,
        p,
        q,
        a,
        b,
    ) == reach(e2, n, a, b) by {
        if reach(e2, n, a, b) {
            let path = choose|path: Seq<int>| is_path(e2, n, path) && path[0] == a && path.last() == b;
            lemma_path_joined(edges, n, p, q, path);
        }
        if joined(conn, p, q, a, b) {
            let c2 = reach_rel(e2, n);
            assert(c2(p, q)) by {
                assert(is_path(e2, n, seq![p, q]));
            }
            assert forall|x: int, y: int| reach(edges, n, x, y) implies #[trigger] c2(x, y) by {
                let path = choose|path: Seq<int>| is_path(edges, n, path) && path[0] == x && path.last() == y;
                assert forall|i: int| 0 <= i < path.len() - 1 implies linked(
                    e2,
                    #[trigger] path[i],
                    path[i + 1],
                ) by {
                    assert(linked(edges, path[i], path[i + 1]));
                }
                assert(is_path(e2, n, path));
            }
            if conn(a, b) {
                assert(c2(a, b));
            } else if conn(a, p) && conn(q, b) {
                assert(c2(a, p) && c2(q, b));
                assert(c2(a, q));
                assert(c2(a, b));
            } else {
                assert(conn(a, q) && conn(p, b));
                assert(c2(a, q) && c2(p, b));
                assert(c2(q, p));
                assert(c2(a, p));
                assert(c2(a, b));
            }
        }
    }
}

} // verus!
