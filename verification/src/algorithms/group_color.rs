//! Colors that follow the largest components of a percolation as they merge: each tracked
//! component is known by its root and keeps a color index; when a tracked root disappears
//! into a new one, the new root takes over its color.
use vstd::prelude::*;
use crate::algorithms::generic_union::{val, GenericUnion, NodeIndex};
use crate::algorithms::generic_percolation::GenericPercolation;
use crate::grid::Grid;
use crate::algorithms::components::largest_first;
use crate::algorithms::percolation::{
    PercolationBlockState, COLOR_INDEX_BLACK, COLOR_INDEX_BLUE, COLOR_INDEX_RED, COLOR_INDEX_WHITE,
};

verus! {

/// The numbers of a sequence of node values.
pub open spec fn vals<T: NodeIndex>(s: Seq<T>) -> Seq<int> {
    s.map_values(|x: T| val(x))
}

/// The map of a list of `(key, value)` pairs, later pairs replacing earlier ones.
pub open spec fn pairs_map<T: NodeIndex>(s: Seq<(T, usize)>) -> Map<int, int>
    decreases s.len(),
{
    if s.len() == 0 {
        Map::empty()
    } else {
        pairs_map(s.drop_last()).insert(val(s.last().0), s.last().1 as int)
    }
}

/// No key occurs twice.
pub open spec fn keys_distinct<T: NodeIndex>(s: Seq<(T, usize)>) -> bool {
    forall|i: int, j: int| 0 <= i < j < s.len() ==> val(#[trigger] s[i].0) != val(#[trigger] s[j].0)
}

/// With distinct keys, the map holds exactly the pairs.
pub proof fn lemma_pairs_map<T: NodeIndex>(s: Seq<(T, usize)>)
    requires
        keys_distinct(s),
    ensures
        forall|k: int| #[trigger] pairs_map(s).contains_key(k) <==> exists|i: int| 0 <= i < s.len() && val(s[i].0) == k,
        forall|i: int| 0 <= i < s.len() ==> #[trigger] pairs_map(s)[val(s[i].0)] == s[i].1 as int,
    decreases s.len(),
{
    if s.len() > 0 {
        let t = s.drop_last();
        assert(keys_distinct(t)) by {
            assert forall|i: int, j: int| 0 <= i < j < t.len() implies val(#[trigger] t[i].0) != val(#[trigger] t[j].0) by {
                assert(t[i] == s[i] && t[j] == s[j]);
            }
        }
        lemma_pairs_map(t);
        assert forall|k: int| #[trigger] pairs_map(s).contains_key(k) <==> exists|i: int| 0 <= i < s.len() && val(s[i].0) == k by {
            if pairs_map(s).contains_key(k) {
                if k != val(s.last().0) {
                    assert(pairs_map(t).contains_key(k));
                    let i = choose|i: int| 0 <= i < t.len() && val(t[i].0) == k;
                    assert(s[i] == t[i]);
                } else {
                    assert(val(s[s.len() - 1].0) == k);
                }
            }
            if exists|i: int| 0 <= i < s.len() && val(s[i].0) == k {
                let i = choose|i: int| 0 <= i < s.len() && val(s[i].0) == k;
                if i < t.len() {
                    assert(t[i] == s[i]);
                    assert(pairs_map(t).contains_key(k));
                }
            }
        }
        assert forall|i: int| 0 <= i < s.len() implies #[trigger] pairs_map(s)[val(s[i].0)] == s[i].1 as int by {
            if i < t.len() {
                assert(t[i] == s[i]);
                assert(val(s[i].0) != val(s[s.len() - 1].0));
                assert(pairs_map(t)[val(t[i].0)] == t[i].1 as int);
            } else {
                assert(s[i] == s.last());
            }
        }
    }
}

/// Every value of the map is a `usize`.
pub proof fn lemma_pairs_map_values<T: NodeIndex>(s: Seq<(T, usize)>)
    ensures
        forall|k: int| #[trigger] pairs_map(s).contains_key(k) ==> 0 <= pairs_map(s)[k] <= usize::MAX,
    decreases s.len(),
{
    if s.len() > 0 {
        lemma_pairs_map_values(s.drop_last());
        assert forall|k: int| #[trigger] pairs_map(s).contains_key(k) implies 0 <= pairs_map(s)[k] <= usize::MAX by {
            if k != val(s.last().0) {
                assert(pairs_map(s.drop_last()).contains_key(k));
            }
        }
    }
}

/// The value of `key` in the list, if any.
fn find_value<T: NodeIndex>(pairs: &Vec<(T, usize)>, key: T) -> (r: Option<usize>)
    requires
        keys_distinct(pairs@),
    ensures
        r == if pairs_map(pairs@).contains_key(val(key)) {
            Some(pairs_map(pairs@)[val(key)] as usize)
        } else {
            None::<usize>
        },
{
    proof {
        lemma_pairs_map(pairs@);
    }
    for i in 0..pairs.len()
        invariant
            keys_distinct(pairs@),
            forall|k: int| #[trigger] pairs_map(pairs@).contains_key(k) <==> exists|j: int| 0 <= j < pairs@.len() && val(pairs@[j].0) == k,
            forall|j: int| 0 <= j < pairs@.len() ==> #[trigger] pairs_map(pairs@)[val(pairs@[j].0)] == pairs@[j].1 as int,
            forall|j: int| 0 <= j < i ==> val(#[trigger] pairs@[j].0) != val(key),
    {
        if pairs[i].0.same(key) {
            return Some(pairs[i].1);
        }
    }
    None
}

/// Sets the value of `key`, replacing the pair with that key or adding one.
fn put_value<T: NodeIndex>(pairs: &mut Vec<(T, usize)>, key: T, value: usize)
    requires
        keys_distinct(old(pairs)@),
    ensures
        keys_distinct(final(pairs)@),
        pairs_map(final(pairs)@) == pairs_map(old(pairs)@).insert(val(key), value as int),
{
    proof {
        lemma_pairs_map(pairs@);
    }
    let n = pairs.len();
    for i in 0..n
        invariant
            pairs@ == old(pairs)@,
            n == pairs@.len(),
            keys_distinct(pairs@),
            forall|j: int| 0 <= j < i ==> val(#[trigger] pairs@[j].0) != val(key),
    {
        if pairs[i].0.same(key) {
            let ghost before = pairs@;
            pairs.set(i, (key, value));
            proof {
                lemma_pairs_map(before);
                assert(keys_distinct(pairs@)) by {
                    assert forall|a: int, b: int| 0 <= a < b < pairs@.len() implies val(#[trigger] pairs@[a].0)
                        != val(#[trigger] pairs@[b].0) by {
                        assert(val(pairs@[a].0) == val(before[a].0));
                        assert(val(pairs@[b].0) == val(before[b].0));
                    }
                }
                lemma_pairs_map(pairs@);
                assert(pairs_map(pairs@) =~= pairs_map(before).insert(val(key), value as int)) by {
                    assert forall|k: int| #[trigger] pairs_map(pairs@).contains_key(k) == pairs_map(before).insert(
                        val(key),
                        value as int,
                    ).contains_key(k) by {
                        if pairs_map(pairs@).contains_key(k) {
                            let j = choose|j: int| 0 <= j < pairs@.len() && val(pairs@[j].0) == k;
                            assert(val(before[j].0) == k);
                        }
                        if pairs_map(before).contains_key(k) {
                            let j = choose|j: int| 0 <= j < before.len() && val(before[j].0) == k;
                            assert(val(pairs@[j].0) == k);
                        }
                    }
                    assert forall|k: int| #[trigger] pairs_map(pairs@).contains_key(k) implies pairs_map(pairs@)[k]
                        == pairs_map(before).insert(val(key), value as int)[k] by {
                        let j = choose|j: int| 0 <= j < pairs@.len() && val(pairs@[j].0) == k;
                        assert(pairs_map(pairs@)[val(pairs@[j].0)] == pairs@[j].1 as int);
                        if j != i {
                            assert(pairs@[j] == before[j]);
                            assert(pairs_map(before)[val(before[j].0)] == before[j].1 as int);
                        }
                    }
                }
            }
            return;
        }
    }
    let ghost before = pairs@;
    pairs.push((key, value));
    proof {
        assert(pairs@.drop_last() =~= before);
        assert(keys_distinct(pairs@)) by {
            assert forall|a: int, b: int| 0 <= a < b < pairs@.len() implies val(#[trigger] pairs@[a].0) != val(
                #[trigger] pairs@[b].0,
            ) by {
                if b < before.len() {
                    assert(pairs@[a] == before[a] && pairs@[b] == before[b]);
                } else {
                    assert(pairs@[a] == before[a]);
                }
            }
        }
    }
}

/// Removes the pair with `key` and returns its value, if there is one.
fn take_value<T: NodeIndex>(pairs: &mut Vec<(T, usize)>, key: T) -> (r: Option<usize>)
    requires
        keys_distinct(old(pairs)@),
    ensures
        keys_distinct(final(pairs)@),
        pairs_map(final(pairs)@) == pairs_map(old(pairs)@).remove(val(key)),
        r == if pairs_map(old(pairs)@).contains_key(val(key)) {
            Some(pairs_map(old(pairs)@)[val(key)] as usize)
        } else {
            None::<usize>
        },
{
    proof {
        lemma_pairs_map(pairs@);
    }
    let n = pairs.len();
    for i in 0..n
        invariant
            pairs@ == old(pairs)@,
            n == pairs@.len(),
            keys_distinct(pairs@),
            forall|k: int| #[trigger] pairs_map(pairs@).contains_key(k) <==> exists|j: int| 0 <= j < pairs@.len() && val(pairs@[j].0) == k,
            forall|j: int| 0 <= j < pairs@.len() ==> #[trigger] pairs_map(pairs@)[val(pairs@[j].0)] == pairs@[j].1 as int,
            forall|j: int| 0 <= j < i ==> val(#[trigger] pairs@[j].0) != val(key),
    {
        if pairs[i].0.same(key) {
            let ghost before = pairs@;
            let (_, value) = pairs.remove(i);
            proof {
                assert(keys_distinct(pairs@)) by {
                    assert forall|a: int, b: int| 0 <= a < b < pairs@.len() implies val(#[trigger] pairs@[a].0)
                        != val(#[trigger] pairs@[b].0) by {
                        let a2 = if a < i { a } else { a + 1 };
                        let b2 = if b < i { b } else { b + 1 };
                        assert(pairs@[a] == before[a2] && pairs@[b] == before[b2]);
                    }
                }
                lemma_pairs_map(pairs@);
                assert(pairs_map(pairs@) =~= pairs_map(before).remove(val(key))) by {
                    assert forall|k: int| #[trigger] pairs_map(pairs@).contains_key(k) == pairs_map(before).remove(
                        val(key),
                    ).contains_key(k) by {
                        if pairs_map(pairs@).contains_key(k) {
                            let j = choose|j: int| 0 <= j < pairs@.len() && val(pairs@[j].0) == k;
                            let j2 = if j < i { j } else { j + 1 };
                            assert(pairs@[j] == before[j2]);
                            assert(j2 != i);
                        }
                        if pairs_map(before).contains_key(k) && k != val(key) {
                            let j = choose|j: int| 0 <= j < before.len() && val(before[j].0) == k;
                            assert(j != i);
                            let j1 = if j < i { j } else { j - 1 };
                            assert(pairs@[j1] == before[j]);
                        }
                    }
                    assert forall|k: int| #[trigger] pairs_map(pairs@).contains_key(k) implies pairs_map(pairs@)[k]
                        == pairs_map(before)[k] by {
                        let j = choose|j: int| 0 <= j < pairs@.len() && val(pairs@[j].0) == k;
                        let j2 = if j < i { j } else { j + 1 };
                        assert(pairs@[j] == before[j2]);
                        assert(pairs_map(pairs@)[val(pairs@[j].0)] == pairs@[j].1 as int);
                        assert(pairs_map(before)[val(before[j2].0)] == before[j2].1 as int);
                    }
                }
            }
            return Some(value);
        }
    }
    proof {
        assert(pairs_map(pairs@).remove(val(key)) =~= pairs_map(pairs@));
    }
    None
}

/// How many entries of `s` exceed `t`.
pub open spec fn count_above(s: Seq<int>, t: int) -> int
    decreases s.len(),
{
    if s.len() == 0 {
        0
    } else {
        count_above(s.drop_last(), t) + if s.last() > t {
            1int
        } else {
            0
        }
    }
}

/// Raising the threshold past an entry lowers the count.
proof fn lemma_count_above_drops(s: Seq<int>, t: int, t2: int, i: int)
    requires
        t < t2,
        0 <= i < s.len(),
        t < s[i] <= t2,
    ensures
        count_above(s, t2) < count_above(s, t),
    decreases s.len(),
{
    lemma_count_above_le(s.drop_last(), t, t2);
    if i < s.len() - 1 {
        lemma_count_above_drops(s.drop_last(), t, t2, i);
    }
}

proof fn lemma_count_above_le(s: Seq<int>, t: int, t2: int)
    requires
        t <= t2,
    ensures
        count_above(s, t2) <= count_above(s, t),
        count_above(s, t2) >= 0,
    decreases s.len(),
{
    if s.len() > 0 {
        lemma_count_above_le(s.drop_last(), t, t2);
    }
}

/// Whether the value of `x` occurs in `s`.
fn contains_value<T: NodeIndex>(s: &Vec<T>, x: T) -> (r: bool)
    ensures
        r == vals(s@).contains(val(x)),
{
    for i in 0..s.len()
        invariant
            forall|j: int| 0 <= j < i ==> val(#[trigger] s@[j]) != val(x),
    {
        if s[i].same(x) {
            proof {
                assert(vals(s@)[i as int] == val(x));
            }
            return true;
        }
    }
    proof {
        if vals(s@).contains(val(x)) {
            let j = choose|j: int| 0 <= j < vals(s@).len() && vals(s@)[j] == val(x);
            assert(val(s@[j]) == val(x));
        }
    }
    false
}

/// The values of `a` missing from `b`, each once, in ascending order.
fn ascending_difference<T: NodeIndex>(a: &Vec<T>, b: &Vec<T>) -> (r: Vec<T>)
    ensures
        forall|i: int, j: int| 0 <= i < j < r@.len() ==> val(#[trigger] r@[i]) < val(#[trigger] r@[j]),
        forall|v: int| #[trigger] vals(r@).contains(v) <==> (vals(a@).contains(v) && !vals(b@).contains(v)),
{
    let mut result: Vec<T> = Vec::new();
    let mut last: Option<T> = None;
    let ghost mut t: int = -1;
    loop
        invariant
            t >= -1,
            last matches Some(x) ==> val(x) == t,
            last is None ==> t == -1,
            forall|i: int, j: int| 0 <= i < j < result@.len() ==> val(#[trigger] result@[i]) < val(#[trigger] result@[j]),
            forall|i: int| 0 <= i < result@.len() ==> val(#[trigger] result@[i]) <= t,
            forall|v: int| #[trigger] vals(result@).contains(v) ==> (vals(a@).contains(v) && !vals(b@).contains(v)),
            forall|v: int|
                vals(a@).contains(v) && !vals(b@).contains(v) && v <= t ==> #[trigger] vals(result@).contains(v),
        ensures
            forall|i: int, j: int| 0 <= i < j < result@.len() ==> val(#[trigger] result@[i]) < val(#[trigger] result@[j]),
            forall|v: int| #[trigger] vals(result@).contains(v) <==> (vals(a@).contains(v) && !vals(b@).contains(v)),
        decreases count_above(vals(a@), t),
    {
        let mut best: Option<T> = None;
        for i in 0..a.len()
            invariant
                t >= -1,
                last matches Some(x) ==> val(x) == t,
                last is None ==> t == -1,
                best matches Some(x) ==> val(x) > t && vals(a@).contains(val(x)) && !vals(b@).contains(val(x)),
                forall|j: int|
                    0 <= j < i && val(#[trigger] a@[j]) > t && !vals(b@).contains(val(a@[j])) ==> (best matches Some(
                        x,
                    ) && val(x) <= val(a@[j])),
        {
            let x = a[i];
            let above = match last {
                Some(l) => l.less(x),
                None => true,
            };
            proof {
                assert(vals(a@)[i as int] == val(x));
                T::lemma_range(x);
            }
            if above && !contains_value(b, x) {
                let better = match best {
                    Some(y) => x.less(y),
                    None => true,
                };
                if better {
                    best = Some(x);
                }
            }
        }
        match best {
            None => {
                proof {
                    assert forall|v: int| vals(a@).contains(v) && !vals(b@).contains(v) implies #[trigger] vals(
                        result@,
                    ).contains(v) by {
                        let j = choose|j: int| 0 <= j < vals(a@).len() && vals(a@)[j] == v;
                        assert(val(a@[j]) == v);
                    }
                }
                break;
            },
            Some(x) => {
                let ghost old_result = result@;
                let ghost t2 = val(x);
                proof {
                    let j = choose|j: int| 0 <= j < vals(a@).len() && vals(a@)[j] == val(x);
                    lemma_count_above_drops(vals(a@), t, t2, j);
                    lemma_count_above_le(vals(a@), t, t2);
                }
                result.push(x);
                last = Some(x);
                proof {
                    t = t2;
                    assert(result@.drop_last() == old_result);
                    assert forall|v: int| #[trigger] vals(result@).contains(v) implies (vals(a@).contains(v)
                        && !vals(b@).contains(v)) by {
                        let k = choose|k: int| 0 <= k < vals(result@).len() && vals(result@)[k] == v;
                        if k < old_result.len() {
                            assert(result@[k] == old_result[k]);
                            assert(vals(old_result)[k] == v);
                            assert(vals(old_result).contains(v));
                        } else {
                            assert(result@[k] == x);
                            assert(v == val(x));
                        }
                    }
                    assert forall|v: int| vals(a@).contains(v) && !vals(b@).contains(v) && v <= t implies #[trigger] vals(
                        result@,
                    ).contains(v) by {
                        if v < t {
                            let j = choose|j: int| 0 <= j < vals(a@).len() && vals(a@)[j] == v;
                            assert(val(a@[j]) == v);
                            if vals(old_result).contains(v) {
                                let k = choose|k: int| 0 <= k < vals(old_result).len() && vals(old_result)[k] == v;
                                assert(vals(result@)[k] == v);
                            }
                        } else {
                            assert(vals(result@)[result@.len() - 1] == v);
                        }
                    }
                }
            },
        }
    }
    result
}

/// The list is strictly increasing.
pub open spec fn increasing(s: Seq<int>) -> bool {
    forall|i: int, j: int| 0 <= i < j < s.len() ==> #[trigger] s[i] < #[trigger] s[j]
}

/// The values of `a` missing from `b`, each once, in ascending order.
pub open spec fn ascending_missing(a: Seq<int>, b: Seq<int>) -> Seq<int> {
    choose|r: Seq<int>| increasing(r) && forall|v: int| #[trigger] r.contains(v) <==> (a.contains(v) && !b.contains(v))
}

/// Two increasing lists with the same values are the same list.
pub proof fn lemma_increasing_unique(r1: Seq<int>, r2: Seq<int>)
    requires
        increasing(r1),
        increasing(r2),
        forall|v: int| #[trigger] r1.contains(v) <==> r2.contains(v),
    ensures
        r1 == r2,
    decreases r1.len(),
{
    if r1.len() == 0 {
        if r2.len() > 0 {
            assert(r2.contains(r2[0]));
            assert(r1.contains(r2[0]));
            assert(false);
        }
        assert(r1 =~= r2);
    } else {
        assert(r1.contains(r1[0]));
        assert(r2.contains(r1[0]));
        assert(r2.len() > 0);
        assert(r2.contains(r2[0]));
        assert(r1.contains(r2[0]));
        let k1 = choose|k: int| 0 <= k < r2.len() && r2[k] == r1[0];
        let k2 = choose|k: int| 0 <= k < r1.len() && r1[k] == r2[0];
        if k1 > 0 {
            assert(r2[0] < r2[k1]);
        }
        if k2 > 0 {
            assert(r1[0] < r1[k2]);
        }
        assert(r1[0] == r2[0]);
        let t1 = r1.subrange(1, r1.len() as int);
        let t2 = r2.subrange(1, r2.len() as int);
        assert forall|v: int| #[trigger] t1.contains(v) <==> t2.contains(v) by {
            if t1.contains(v) {
                let k = choose|k: int| 0 <= k < t1.len() && t1[k] == v;
                assert(r1[k + 1] == v);
                assert(r1.contains(v));
                assert(r2.contains(v));
                let m = choose|m: int| 0 <= m < r2.len() && r2[m] == v;
                assert(r1[0] < r1[k + 1]);
                assert(r1[0] == r2[0]);
                assert(m != 0);
                assert(t2[m - 1] == v);
            }
            if t2.contains(v) {
                let k = choose|k: int| 0 <= k < t2.len() && t2[k] == v;
                assert(r2[k + 1] == v);
                assert(r2.contains(v));
                assert(r1.contains(v));
                let m = choose|m: int| 0 <= m < r1.len() && r1[m] == v;
                assert(r2[0] < r2[k + 1]);
                assert(r1[0] == r2[0]);
                assert(m != 0);
                assert(t1[m - 1] == v);
            }
        }
        lemma_increasing_unique(t1, t2);
        assert(r1 =~= seq![r1[0]] + t1);
        assert(r2 =~= seq![r2[0]] + t2);
    }
}

/// The colors of the added roots and of the removed roots after the removed roots were paired
/// with the added roots `(0, 0)`, `(0, 1)`, ..., up to but not including `(i, j)`: an added root
/// connected to a removed root takes its color, which the removed root then gives up.
pub open spec fn paired(
    removed: Seq<int>,
    added: Seq<int>,
    conn: spec_fn(int, int) -> bool,
    removed_colors: Seq<Option<int>>,
    i: nat,
    j: nat,
) -> (Seq<Option<int>>, Seq<Option<int>>)
    decreases i, j,
{
    if j > 0 {
        let (ac, rc) = paired(removed, added, conn, removed_colors, i, (j - 1) as nat);
        if conn(removed[i as int], added[j - 1]) {
            (ac.update(j - 1, rc[i as int]), rc.update(i as int, None))
        } else {
            (ac, rc)
        }
    } else if i > 0 {
        paired(removed, added, conn, removed_colors, (i - 1) as nat, added.len())
    } else {
        (Seq::new(added.len(), |k: int| None), removed_colors)
    }
}

/// The colors that are there, in order.
pub open spec fn somes(s: Seq<Option<int>>) -> Seq<int>
    decreases s.len(),
{
    if s.len() == 0 {
        Seq::empty()
    } else {
        somes(s.drop_last()) + match s.last() {
            Some(c) => seq![c],
            None => Seq::empty(),
        }
    }
}

/// How many of the first `j` entries hold no color.
pub open spec fn none_count(s: Seq<Option<int>>, j: int) -> int
    decreases j,
{
    if j <= 0 {
        0
    } else {
        none_count(s, j - 1) + if s[j - 1] is None {
            1int
        } else {
            0
        }
    }
}

/// The color the added root at `j` gets: its own, or the next spare color.
pub open spec fn color_for(colors: Seq<Option<int>>, spare: Seq<int>, j: int) -> int {
    match colors[j] {
        Some(c) => c,
        None => spare[none_count(colors, j)],
    }
}

/// The map with the first `j` added roots set to their colors.
pub open spec fn with_added(
    m: Map<int, int>,
    added: Seq<int>,
    colors: Seq<Option<int>>,
    spare: Seq<int>,
    j: int,
) -> Map<int, int>
    decreases j,
{
    if j <= 0 {
        m
    } else {
        with_added(m, added, colors, spare, j - 1).insert(added[j - 1], color_for(colors, spare, j - 1))
    }
}

/// The map without the first `i` removed roots.
pub open spec fn without_removed(m: Map<int, int>, removed: Seq<int>, i: int) -> Map<int, int>
    decreases i,
{
    if i <= 0 {
        m
    } else {
        without_removed(m, removed, i - 1).remove(removed[i - 1])
    }
}

/// The first groups: the `k`-th root gets the `k`-th color after the four fixed ones.
pub open spec fn first_groups(roots: Seq<int>, k: int) -> Map<int, int>
    decreases k,
{
    if k <= 0 {
        Map::empty()
    } else {
        first_groups(roots, k - 1).insert(roots[k - 1], 4 + k - 1)
    }
}

/// Every key of the map lies in `0..n`.
pub open spec fn keys_below(m: Map<int, int>, n: int) -> bool {
    forall|k: int| #[trigger] m.contains_key(k) ==> 0 <= k < n
}

/// The first groups track only the first `k` roots.
proof fn lemma_first_groups_keys(roots: Seq<int>, k: int, n: int)
    requires
        k <= roots.len(),
        forall|i: int| 0 <= i < roots.len() ==> 0 <= #[trigger] roots[i] < n,
    ensures
        keys_below(first_groups(roots, k), n),
    decreases k,
{
    if k > 0 {
        lemma_first_groups_keys(roots, k - 1, n);
    }
}

/// A list of color indexes as integers.
pub open spec fn usizes(s: Seq<usize>) -> Seq<int> {
    s.map_values(|c: usize| c as int)
}

/// The colors of a list of optional color indexes, as integers.
pub open spec fn opt_ints(s: Seq<Option<usize>>) -> Seq<Option<int>> {
    s.map_values(
        |c: Option<usize>|
            match c {
                Some(v) => Some(v as int),
                None => None::<int>,
            },
    )
}

/// Groups of tracked components, each known by its root and holding a color index.
pub struct GroupColor<T: NodeIndex> {
    pub groups: Vec<(T, usize)>,
    pub open_as_white: bool,
}

impl<T: NodeIndex> GroupColor<T> {
    /// The color index of each tracked root.
    pub open spec fn group_map(&self) -> Map<int, int> {
        pairs_map(self.groups@)
    }

    /// The tracked roots, in the order they are stored.
    pub open spec fn root_vals(&self) -> Seq<int> {
        self.groups@.map_values(|p: (T, usize)| val(p.0))
    }

    pub open spec fn wf(&self) -> bool {
        keys_distinct(self.groups@)
    }

    /// The roots among `roots` that are not tracked, ascending.
    pub open spec fn added_roots(&self, roots: Seq<T>) -> Seq<int> {
        ascending_missing(vals(roots), self.root_vals())
    }

    /// The tracked roots missing from `roots`, ascending.
    pub open spec fn removed_roots(&self, roots: Seq<T>) -> Seq<int> {
        ascending_missing(self.root_vals(), vals(roots))
    }

    /// The colors of the added roots and of the removed roots once the removed roots have
    /// passed their colors on to the added roots connected to them.
    pub open spec fn pairing(&self, roots: Seq<T>, conn: spec_fn(int, int) -> bool) -> (
        Seq<Option<int>>,
        Seq<Option<int>>,
    ) {
        let removed = self.removed_roots(roots);
        paired(
            removed,
            self.added_roots(roots),
            conn,
            Seq::new(removed.len(), |i: int| Some(self.group_map()[removed[i]])),
            removed.len(),
            0,
        )
    }

    /// There is a spare color for every added root that did not inherit one.
    pub open spec fn colors_suffice(&self, roots: Seq<T>, conn: spec_fn(int, int) -> bool) -> bool {
        let (ac, rc) = self.pairing(roots, conn);
        none_count(ac, self.added_roots(roots).len() as int) <= somes(rc).len()
    }

    /// The groups after an update with `roots`: the removed roots are dropped and every added
    /// root gets its inherited color or the next spare one.
    pub open spec fn updated_map(&self, roots: Seq<T>, conn: spec_fn(int, int) -> bool) -> Map<int, int> {
        let removed = self.removed_roots(roots);
        let added = self.added_roots(roots);
        let (ac, rc) = self.pairing(roots, conn);
        with_added(without_removed(self.group_map(), removed, removed.len() as int), added, ac, somes(rc), added.len() as int)
    }

    /// No groups yet.
    pub fn new(open_as_white: bool) -> (g: Self)
        ensures
            g.wf(),
            g.group_map() == Map::<int, int>::empty(),
            g.open_as_white == open_as_white,
    {
        Self { groups: Vec::new(), open_as_white }
    }

    /// Gives the `k`-th root the `k`-th color after the four fixed ones.
    fn set_up_first_groups(&mut self, roots: Vec<T>)
        requires
            old(self).wf(),
            roots@.len() + 4 <= usize::MAX,
        ensures
            final(self).wf(),
            final(self).open_as_white == old(self).open_as_white,
            final(self).group_map() == first_groups(vals(roots@), roots@.len() as int),
    {
        self.groups = Vec::new();
        let mut color_index: usize = 4;
        for i in 0..roots.len()
            invariant
                self.wf(),
                self.open_as_white == old(self).open_as_white,
                color_index == 4 + i,
                roots@.len() + 4 <= usize::MAX,
                self.group_map() == first_groups(vals(roots@), i as int),
        {
            put_value(&mut self.groups, roots[i], color_index);
            color_index += 1;
        }
    }
}

impl<T: NodeIndex> GroupColor<T> {
    /// The roots an update with `roots` adds and removes, ascending, and the colors of each
    /// once the removed roots have passed theirs on to the added roots connected to them.
    #[verifier::rlimit(40)]
    fn pair_colors(&self, roots: &Vec<T>, union: &GenericUnion<T>) -> (r: (
        Vec<T>,
        Vec<T>,
        Vec<Option<usize>>,
        Vec<Option<usize>>,
    ))
        requires
            self.wf(),
            union.wf(),
            forall|i: int| 0 <= i < roots@.len() ==> val(#[trigger] roots@[i]) < union.count(),
            forall|i: int| 0 <= i < self.groups@.len() ==> val(#[trigger] self.groups@[i].0) < union.count(),
        ensures
            vals(r.0@) == self.added_roots(roots@),
            vals(r.1@) == self.removed_roots(roots@),
            increasing(vals(r.1@)),
            forall|v: int| #[trigger] vals(r.1@).contains(v) ==> self.root_vals().contains(v),
            r.2@.len() == r.0@.len(),
            r.3@.len() == r.1@.len(),
            (opt_ints(r.2@), opt_ints(r.3@)) == self.pairing(roots@, union.conn_rel()),
            forall|k: int| 0 <= k < r.0@.len() ==> val(#[trigger] r.0@[k]) < union.count(),
    {
        let ghost conn = union.conn_rel();
        let mut keys: Vec<T> = Vec::new();
        for i in 0..self.groups.len()
            invariant
                keys@.len() == i,
                forall|k: int| 0 <= k < i ==> #[trigger] keys@[k] == self.groups@[k].0,
        {
            keys.push(self.groups[i].0);
        }
        proof {
            assert(vals(keys@) =~= self.root_vals());
        }
        let added = ascending_difference(roots, &keys);
        let removed = ascending_difference(&keys, roots);
        let ghost av = vals(added@);
        let ghost rv = vals(removed@);
        proof {
            assert(increasing(av));
            assert(increasing(rv));
            lemma_increasing_unique(av, self.added_roots(roots@));
            lemma_increasing_unique(rv, self.removed_roots(roots@));
        }
        let ghost rc0 = Seq::new(rv.len(), |i: int| Some(self.group_map()[rv[i]]));
        proof {
            lemma_pairs_map(self.groups@);
            lemma_pairs_map_values(self.groups@);
            assert forall|k: int| 0 <= k < removed@.len() implies val(#[trigger] removed@[k]) < union.count() by {
                assert(rv[k] == val(removed@[k]));
                assert(rv.contains(rv[k]));
                assert(vals(keys@).contains(rv[k]));
                let j = choose|j: int| 0 <= j < vals(keys@).len() && vals(keys@)[j] == rv[k];
                assert(val(self.groups@[j].0) == rv[k]);
            }
            assert forall|k: int| 0 <= k < added@.len() implies val(#[trigger] added@[k]) < union.count() by {
                assert(av[k] == val(added@[k]));
                assert(av.contains(av[k]));
                assert(vals(roots@).contains(av[k]));
                let j = choose|j: int| 0 <= j < vals(roots@).len() && vals(roots@)[j] == av[k];
                assert(val(roots@[j]) == av[k]);
            }
        }
        // The colors of the removed roots.
        let mut removed_colors: Vec<Option<usize>> = Vec::new();
        for i in 0..removed.len()
            invariant
                self.wf(),
                rv == vals(removed@),
                forall|v: int| #[trigger] rv.contains(v) ==> self.root_vals().contains(v),
                rc0 == Seq::new(rv.len(), |i: int| Some(self.group_map()[rv[i]])),
                forall|k: int| #[trigger] self.group_map().contains_key(k) <==> exists|j: int| 0 <= j < self.groups@.len() && val(self.groups@[j].0) == k,
                forall|k: int| #[trigger] self.group_map().contains_key(k) ==> 0 <= self.group_map()[k] <= usize::MAX,
                removed_colors@.len() == i,
                opt_ints(removed_colors@) == rc0.take(i as int),
        {
            proof {
                assert(rv.contains(rv[i as int]));
                let j = choose|j: int| 0 <= j < self.root_vals().len() && self.root_vals()[j] == rv[i as int];
                assert(self.group_map().contains_key(rv[i as int])) by {
                    assert(val(self.groups@[j].0) == rv[i as int]);
                }
            }
            let color = find_value(&self.groups, removed[i]);
            proof {
                assert(val(removed@[i as int]) == rv[i as int]);
                assert(color == Some(self.group_map()[rv[i as int]] as usize));
            }
            let ghost before = removed_colors@;
            removed_colors.push(color);
            proof {
                assert(opt_ints(removed_colors@)[i as int] == rc0[i as int]);
                assert forall|k: int| 0 <= k < i implies opt_ints(removed_colors@)[k] == rc0.take(i + 1)[k] by {
                    assert(removed_colors@[k] == before[k]);
                    assert(opt_ints(before)[k] == rc0.take(i as int)[k]);
                }
                assert(opt_ints(removed_colors@) =~= rc0.take(i + 1));
            }
        }
        proof {
            assert(rc0.take(rv.len() as int) =~= rc0);
        }
        let mut added_colors: Vec<Option<usize>> = Vec::new();
        for j in 0..added.len()
            invariant
                added_colors@.len() == j,
                forall|k: int| 0 <= k < j ==> (#[trigger] added_colors@[k]) is None,
        {
            added_colors.push(None);
        }
        proof {
            assert(opt_ints(added_colors@) =~= Seq::new(av.len(), |k: int| None::<int>));
            assert(paired(rv, av, conn, rc0, 0, 0) == (Seq::new(av.len(), |k: int| None::<int>), rc0));
        }
        // Pass the colors of the removed roots on to the added roots connected to them.
        for i in 0..removed.len()
            invariant
                union.wf(),
                conn == union.conn_rel(),
                rv == vals(removed@),
                av == vals(added@),
                forall|k: int| 0 <= k < removed@.len() ==> val(#[trigger] removed@[k]) < union.count(),
                forall|k: int| 0 <= k < added@.len() ==> val(#[trigger] added@[k]) < union.count(),
                (opt_ints(added_colors@), opt_ints(removed_colors@)) == paired(rv, av, conn, rc0, i as nat, 0),
                added_colors@.len() == added@.len(),
                removed_colors@.len() == removed@.len(),
        {
            for j in 0..added.len()
                invariant
                    union.wf(),
                    conn == union.conn_rel(),
                    rv == vals(removed@),
                    av == vals(added@),
                    i < removed@.len(),
                    forall|k: int| 0 <= k < removed@.len() ==> val(#[trigger] removed@[k]) < union.count(),
                    forall|k: int| 0 <= k < added@.len() ==> val(#[trigger] added@[k]) < union.count(),
                    (opt_ints(added_colors@), opt_ints(removed_colors@)) == paired(rv, av, conn, rc0, i as nat, j as nat),
                    added_colors@.len() == added@.len(),
                    removed_colors@.len() == removed@.len(),
            {
                if union.is_connected(removed[i], added[j]) {
                    let removed_color = removed_colors[i];
                    added_colors.set(j, removed_color);
                    removed_colors.set(i, None);
                }
                proof {
                    assert(conn(rv[i as int], av[j as int]) == union.connected(val(removed@[i as int]), val(added@[j as int])));
                    assert(opt_ints(added_colors@) =~= paired(rv, av, conn, rc0, i as nat, (j + 1) as nat).0);
                    assert(opt_ints(removed_colors@) =~= paired(rv, av, conn, rc0, i as nat, (j + 1) as nat).1);
                }
            }
            proof {
                assert(paired(rv, av, conn, rc0, (i + 1) as nat, 0) == paired(rv, av, conn, rc0, i as nat, av.len()));
            }
        }
        (added, removed, added_colors, removed_colors)
    }

    /// Whether an update with `roots` finds a color for every new root: each root that
    /// inherits no color from a dropped root connected to it needs a color left unclaimed by
    /// the dropped roots.
    pub fn colors_suffice_for(&self, roots: &Vec<T>, union: &GenericUnion<T>) -> (b: bool)
        requires
            self.wf(),
            union.wf(),
            forall|i: int| 0 <= i < roots@.len() ==> val(#[trigger] roots@[i]) < union.count(),
            forall|i: int| 0 <= i < self.groups@.len() ==> val(#[trigger] self.groups@[i].0) < union.count(),
        ensures
            b == self.colors_suffice(roots@, union.conn_rel()),
    {
        let (added, _removed, added_colors, removed_colors) = self.pair_colors(roots, union);
        let ghost ac = opt_ints(added_colors@);
        let ghost rc = opt_ints(removed_colors@);
        let mut missing: usize = 0;
        for j in 0..added_colors.len()
            invariant
                ac == opt_ints(added_colors@),
                missing == none_count(ac, j as int),
                missing <= j,
        {
            if added_colors[j].is_none() {
                missing = missing + 1;
            }
        }
        let mut spare: usize = 0;
        for i in 0..removed_colors.len()
            invariant
                rc == opt_ints(removed_colors@),
                spare == somes(rc.take(i as int)).len(),
                spare <= i,
        {
            proof {
                assert(rc.take(i + 1).drop_last() =~= rc.take(i as int));
            }
            if removed_colors[i].is_some() {
                spare = spare + 1;
            }
        }
        proof {
            assert(rc.take(rc.len() as int) =~= rc);
        }
        missing <= spare
    }

    /// Tracks the components with roots `roots`: the first time, each root gets a color of its
    /// own; later, roots no longer tracked are dropped, and each new root takes the color of a
    /// dropped root connected to it or else the next spare color.
    #[verifier::rlimit(40)]
    pub fn update(&mut self, roots: Vec<T>, union: &GenericUnion<T>)
        requires
            old(self).wf(),
            union.wf(),
            roots@.len() + 4 <= usize::MAX,
            forall|i: int| 0 <= i < roots@.len() ==> val(#[trigger] roots@[i]) < union.count(),
            forall|i: int| 0 <= i < old(self).groups@.len() ==> val(#[trigger] old(self).groups@[i].0) < union.count(),
            old(self).groups@.len() > 0 ==> old(self).colors_suffice(roots@, union.conn_rel()),
        ensures
            final(self).wf(),
            final(self).open_as_white == old(self).open_as_white,
            final(self).group_map() == if old(self).groups@.len() == 0 {
                first_groups(vals(roots@), roots@.len() as int)
            } else {
                old(self).updated_map(roots@, union.conn_rel())
            },
            keys_below(final(self).group_map(), union.count() as int),
    {
        if self.groups.len() == 0 {
            proof {
                assert forall|i: int| 0 <= i < vals(roots@).len() implies 0 <= #[trigger] vals(roots@)[i]
                    < union.count() by {
                    assert(vals(roots@)[i] == val(roots@[i]));
                }
                lemma_first_groups_keys(vals(roots@), roots@.len() as int, union.count() as int);
            }
            self.set_up_first_groups(roots);
            return;
        }
        proof {
            lemma_pairs_map(self.groups@);
        }
        let ghost start = *self;
        let ghost conn = union.conn_rel();
        let (added, removed, added_colors, removed_colors) = self.pair_colors(&roots, union);
        let ghost av = vals(added@);
        let ghost rv = vals(removed@);
        let ghost ac = opt_ints(added_colors@);
        let ghost rc = opt_ints(removed_colors@);
        // Drop the removed roots.
        for i in 0..removed.len()
            invariant
                self.wf(),
                self.open_as_white == start.open_as_white,
                rv == vals(removed@),
                self.group_map() == without_removed(start.group_map(), rv, i as int),
                keys_below(self.group_map(), union.count() as int),
        {
            take_value(&mut self.groups, removed[i]);
            proof {
                assert(val(removed@[i as int]) == rv[i as int]);
            }
        }
        // The colors no added root inherited, in the order of their removed roots.
        let mut spare: Vec<usize> = Vec::new();
        for i in 0..removed_colors.len()
            invariant
                rc == opt_ints(removed_colors@),
                usizes(spare@) == somes(rc.take(i as int)),
        {
            proof {
                assert(rc.take(i + 1).drop_last() =~= rc.take(i as int));
            }
            if let Some(c) = removed_colors[i] {
                spare.push(c);
                proof {
                    assert(usizes(spare@) =~= somes(rc.take(i + 1)));
                }
            } else {
                proof {
                    assert(usizes(spare@) =~= somes(rc.take(i + 1)));
                }
            }
        }
        let ghost sp = somes(rc);
        proof {
            assert(rc.take(rc.len() as int) =~= rc);
            lemma_none_count_grows(ac, 0, av.len() as int);
            assert(sp.subrange(0, sp.len() as int) =~= sp);
        }
        // Give each added root its inherited color or the next spare one.
        for j in 0..added.len()
            invariant
                self.wf(),
                self.open_as_white == start.open_as_white,
                av == vals(added@),
                ac == opt_ints(added_colors@),
                added_colors@.len() == added@.len(),
                none_count(ac, av.len() as int) <= sp.len(),
                0 <= none_count(ac, j as int) <= none_count(ac, av.len() as int),
                usizes(spare@) == sp.subrange(none_count(ac, j as int), sp.len() as int),
                self.group_map() == with_added(without_removed(start.group_map(), rv, rv.len() as int), av, ac, sp, j as int),
                keys_below(self.group_map(), union.count() as int),
                forall|k: int| 0 <= k < added@.len() ==> val(#[trigger] added@[k]) < union.count(),
        {
            proof {
                lemma_none_count_grows(ac, j as int, av.len() as int);
            }
            let color_index = match added_colors[j] {
                Some(c) => {
                    proof {
                        assert(ac[j as int] == Some(c as int));
                        assert(none_count(ac, j + 1) == none_count(ac, j as int));
                    }
                    c
                },
                None => {
                    proof {
                        assert(ac[j as int] is None);
                        assert(none_count(ac, j + 1) == none_count(ac, j as int) + 1);
                        lemma_none_count_grows(ac, j + 1, av.len() as int);
                        assert(usizes(spare@).len() == spare@.len());
                        assert(spare@.len() == sp.len() - none_count(ac, j as int));
                        assert(usizes(spare@)[0] == sp[none_count(ac, j as int)]);
                    }
                    let ghost before = spare@;
                    let c = spare.remove(0);
                    proof {
                        assert forall|k: int| 0 <= k < spare@.len() implies #[trigger] usizes(spare@)[k]
                            == sp.subrange(none_count(ac, j + 1), sp.len() as int)[k] by {
                            assert(spare@[k] == before[k + 1]);
                            assert(usizes(before)[k + 1] == sp[none_count(ac, j as int) + k + 1]);
                        }
                    }
                    c
                },
            };
            proof {
                assert(color_index as int == color_for(ac, sp, j as int));
                assert(usizes(spare@) =~= sp.subrange(none_count(ac, j + 1), sp.len() as int));
            }
            put_value(&mut self.groups, added[j], color_index);
        }
    }

    /// Tracks the components with roots `roots` as `update` does when every new root finds a
    /// color, and returns `true`; otherwise leaves the groups as they are and returns `false`.
    pub fn try_update(&mut self, roots: Vec<T>, union: &GenericUnion<T>) -> (updated: bool)
        requires
            old(self).wf(),
            union.wf(),
            roots@.len() + 4 <= usize::MAX,
            forall|i: int| 0 <= i < roots@.len() ==> val(#[trigger] roots@[i]) < union.count(),
            forall|i: int| 0 <= i < old(self).groups@.len() ==> val(#[trigger] old(self).groups@[i].0) < union.count(),
        ensures
            final(self).wf(),
            final(self).open_as_white == old(self).open_as_white,
            updated == (old(self).groups@.len() == 0 || old(self).colors_suffice(roots@, union.conn_rel())),
            updated ==> final(self).group_map() == if old(self).groups@.len() == 0 {
                first_groups(vals(roots@), roots@.len() as int)
            } else {
                old(self).updated_map(roots@, union.conn_rel())
            },
            !updated ==> *final(self) == *old(self),
            forall|i: int| 0 <= i < final(self).groups@.len() ==> val(#[trigger] final(self).groups@[i].0) < union.count(),
    {
        if self.groups.len() > 0 && !self.colors_suffice_for(&roots, union) {
            return false;
        }
        self.update(roots, union);
        proof {
            lemma_pairs_map(self.groups@);
            assert forall|i: int| 0 <= i < self.groups@.len() implies val(#[trigger] self.groups@[i].0) < union.count() by {
                assert(self.group_map().contains_key(val(self.groups@[i].0)));
            }
        }
        true
    }
}

/// The count of entries without a color never falls.
proof fn lemma_none_count_grows(s: Seq<Option<int>>, j: int, k: int)
    requires
        0 <= j <= k,
    ensures
        0 <= none_count(s, j) <= none_count(s, k),
    decreases k - j,
{
    if j < k {
        lemma_none_count_grows(s, j, k - 1);
    } else {
        lemma_none_count_nonneg(s, j);
    }
}

proof fn lemma_none_count_nonneg(s: Seq<Option<int>>, j: int)
    ensures
        none_count(s, j) >= 0,
    decreases j,
{
    if j > 0 {
        lemma_none_count_nonneg(s, j - 1);
    }
}

impl<T: NodeIndex> GroupColor<T> {
    /// The color index of a cell whose node is `node_index` and which shows `block_state`:
    /// black when blocked, blue when reached from the start node, red when reached from the
    /// end node, else the color of its group (but on the last frame), else white or black.
    pub fn block_color_index(
        &self,
        node_index: T,
        end_node_index: T,
        block_state: PercolationBlockState,
        is_last_frame: bool,
        union: &GenericUnion<T>,
    ) -> (index: usize)
        requires
            self.wf(),
            union.wf(),
            val(node_index) < union.count(),
            val(end_node_index) < union.count(),
        ensures
            index == match block_state {
                PercolationBlockState::Blocked => COLOR_INDEX_BLACK as int,
                PercolationBlockState::Filled => COLOR_INDEX_BLUE as int,
                PercolationBlockState::Open => if union.connected(val(end_node_index), val(node_index)) {
                    COLOR_INDEX_RED as int
                } else if !is_last_frame && self.group_map().contains_key(union.root_of(val(node_index))) {
                    self.group_map()[union.root_of(val(node_index))]
                } else if self.open_as_white {
                    COLOR_INDEX_WHITE as int
                } else {
                    COLOR_INDEX_BLACK as int
                },
            },
    {
        match block_state {
            PercolationBlockState::Blocked => COLOR_INDEX_BLACK,
            PercolationBlockState::Open => {
                let node_root_index = union.root(node_index);
                if union.is_connected(end_node_index, node_index) {
                    COLOR_INDEX_RED
                } else {
                    if !is_last_frame {
                        if let Some(color_index) = find_value(&self.groups, node_root_index) {
                            proof {
                                lemma_pairs_map_values(self.groups@);
                            }
                            return color_index;
                        }
                    }
                    if self.open_as_white {
                        COLOR_INDEX_WHITE
                    } else {
                        COLOR_INDEX_BLACK
                    }
                }
            },
            PercolationBlockState::Filled => COLOR_INDEX_BLUE,
        }
    }
}

impl<T: NodeIndex> GroupColor<T> {
    /// The color index of cell `(x, y)` of `perc`: black when blocked, blue when reached from
    /// the start node, red when joined to the end node, else the color of its component's
    /// group (but on the last frame), or white or black as `open_as_white` says.
    pub open spec fn group_color_index_of(&self, perc: GenericPercolation<T>, x: int, y: int, is_last_frame: bool) -> int {
        let u = y * perc.w() + x;
        if !perc.is_open(x, y) {
            COLOR_INDEX_BLACK as int
        } else if perc.linked_nodes(val(perc.start_node_index), u) {
            COLOR_INDEX_BLUE as int
        } else if perc.union.connected(val(perc.end_node_index), u) {
            COLOR_INDEX_RED as int
        } else if !is_last_frame && self.group_map().contains_key(perc.union.root_of(u)) {
            self.group_map()[perc.union.root_of(u)]
        } else if self.open_as_white {
            COLOR_INDEX_WHITE as int
        } else {
            COLOR_INDEX_BLACK as int
        }
    }

    /// The grid of the color indexes of all cells of `perc`.
    pub fn color_grid(&self, perc: &GenericPercolation<T>, is_last_frame: bool) -> (grid: Grid<usize>)
        requires
            self.wf(),
            perc.wf(),
        ensures
            grid.wf(),
            grid.width == perc.w(),
            grid.height == perc.h(),
            !grid.record_events,
            forall|x: int, y: int|
                0 <= x < perc.w() && 0 <= y < perc.h() ==> #[trigger] grid.cell(x, y) == self.group_color_index_of(
                    *perc,
                    x,
                    y,
                    is_last_frame,
                ),
    {
        let (width, height) = (perc.width_usize, perc.height_usize);
        let mut color_grid = Grid::new(width, height, 0);
        color_grid.record_events = false;
        proof {
            assert(perc.w() <= perc.w() * perc.h() && perc.h() <= perc.w() * perc.h()) by (nonlinear_arith)
                requires
                    perc.w() >= 1,
                    perc.h() >= 1,
            ;
        }
        for color_y in 0..height
            invariant
                self.wf(),
                perc.wf(),
                width == perc.w(),
                height == perc.h(),
                width <= T::max_value(),
                height <= T::max_value(),
                color_grid.wf(),
                color_grid.width == width,
                color_grid.height == height,
                !color_grid.record_events,
                forall|x: int, y: int|
                    0 <= x < width && 0 <= y < color_y ==> #[trigger] color_grid.cell(x, y) == self.group_color_index_of(
                        *perc,
                        x,
                        y,
                        is_last_frame,
                    ),
        {
            for color_x in 0..width
                invariant
                    self.wf(),
                    perc.wf(),
                    width == perc.w(),
                    height == perc.h(),
                    width <= T::max_value(),
                    height <= T::max_value(),
                    color_y < height,
                    color_grid.wf(),
                    color_grid.width == width,
                    color_grid.height == height,
                    !color_grid.record_events,
                    forall|x: int, y: int|
                        0 <= x < width && 0 <= y < height && (y < color_y || (y == color_y && x < color_x))
                            ==> #[trigger] color_grid.cell(x, y) == self.group_color_index_of(
                            *perc,
                            x,
                            y,
                            is_last_frame,
                        ),
            {
                let x = GenericPercolation::<T>::from_usize(color_x);
                let y = GenericPercolation::<T>::from_usize(color_y);
                proof {
                    assert(color_y * perc.w() + color_x < perc.w() * perc.h()) by (nonlinear_arith)
                        requires
                            color_y < perc.h(),
                            color_x < perc.w(),
                    ;
                }
                let node_index = perc.x_y_to_index(x, y);
                let block_state = perc.block_state(x, y);
                let index = self.block_color_index(node_index, perc.end_node_index, block_state, is_last_frame, &perc.union);
                color_grid.set_xy(color_x, color_y, index);
            }
        }
        color_grid
    }
}

impl<T: NodeIndex> GenericPercolation<T> {
    /// The state `state` and the largest roots `roots` at the frame drawn at `step` of a
    /// replay from `self` of the cells of `pairs`.
    pub open spec fn group_state(
        &self,
        pairs: Seq<(usize, usize)>,
        step: int,
        limit: usize,
        state: Self,
        roots: Seq<T>,
    ) -> bool {
        &&& state.wf()
        &&& state.same_frame(self)
        &&& state.links == self.links
        &&& state.cells@ == self.cells_after(pairs, step + 1)
        &&& state.union.model() == self.model_after(pairs, step + 1)
        &&& largest_first(state.union.size_values(), limit as nat, roots.map_values(|x: T| x.index_value() as usize))
    }

    /// The groups at a frame drawn at `step`: from the step `threshold` on, `before` tracks
    /// `roots` as `GroupColor::try_update` does, which every new root finds a color for;
    /// before it, they stay.
    pub open spec fn group_step(
        step: int,
        threshold: int,
        state: Self,
        roots: Seq<T>,
        before: GroupColor<T>,
        after: GroupColor<T>,
    ) -> bool {
        if step >= threshold {
            &&& before.groups@.len() == 0 || before.colors_suffice(roots, state.union.conn_rel())
            &&& after.wf()
            &&& after.open_as_white == before.open_as_white
            &&& after.group_map() == if before.groups@.len() == 0 {
                first_groups(vals(roots), roots.len() as int)
            } else {
                before.updated_map(roots, state.union.conn_rel())
            }
        } else {
            after == before
        }
    }

    /// The grid of a frame: the group color index of every cell of `state`.
    pub open spec fn group_grid(&self, last: bool, state: Self, groups: GroupColor<T>, grid: Grid<usize>) -> bool {
        &&& grid.wf()
        &&& grid.width == self.w()
        &&& grid.height == self.h()
        &&& !grid.record_events
        &&& forall|x: int, y: int|
            0 <= x < self.w() && 0 <= y < self.h() ==> #[trigger] grid.cell(x, y) == groups.group_color_index_of(
                state,
                x,
                y,
                last,
            )
    }

    /// The grids are the first frames of a replay from `self` of the cells of `pairs` drawn at
    /// the steps of `steps`, with the states `states`, the largest roots `roots` and the groups
    /// `gs`, `gs[j + 1]` after frame `j`; `states` and `roots` may hold one frame more.
    pub open spec fn group_replayed(
        &self,
        pairs: Seq<(usize, usize)>,
        steps: Seq<usize>,
        limit: usize,
        threshold: int,
        grids: Seq<Grid<usize>>,
        states: Seq<Self>,
        roots: Seq<Seq<T>>,
        gs: Seq<GroupColor<T>>,
    ) -> bool {
        &&& grids.len() <= steps.len()
        &&& grids.len() <= states.len()
        &&& states.len() == roots.len()
        &&& states.len() <= steps.len()
        &&& gs.len() == grids.len() + 1
        &&& forall|j: int|
            0 <= j < states.len() ==> #[trigger] self.group_state(pairs, steps[j] as int, limit, states[j], roots[j])
        &&& forall|j: int|
            0 <= j < grids.len() ==> #[trigger] Self::group_step(steps[j] as int, threshold, states[j], roots[j], gs[j], gs[j + 1])
                && self.group_grid(steps[j] == pairs.len() - 1, states[j], gs[j + 1], grids[j])
    }

    /// Opens the cells of `pairs` in turn and, at each step of `steps`, finds the roots of the
    /// `limit` largest components, has `groups` track them from the step `color_threshold_step`
    /// on, and makes the grid of the group color indexes of all cells. When the colors freed
    /// by the groups that leave do not suffice for the groups that come, stops with the number
    /// of the frame.
    pub fn replay_group_color_grids(
        &mut self,
        pairs: &[(usize, usize)],
        steps: &Vec<usize>,
        limit: usize,
        color_threshold_step: usize,
        groups: &mut GroupColor<T>,
    ) -> (grids: Result<Vec<Grid<usize>>, usize>)
        requires
            old(self).wf(),
            old(groups).wf(),
            forall|i: int| 0 <= i < old(groups).groups@.len() ==> val(#[trigger] old(groups).groups@[i].0)
                < old(self).union.count(),
            forall|i: int| 0 <= i < pairs@.len() ==> #[trigger] pairs@[i].0 < old(self).w() && pairs@[i].1
                < old(self).h(),
            forall|i: int, j: int| 0 <= i < j < steps@.len() ==> #[trigger] steps@[i] < #[trigger] steps@[j],
            forall|i: int| 0 <= i < steps@.len() ==> #[trigger] steps@[i] < pairs@.len(),
            limit + 4 <= usize::MAX,
        ensures
            final(self).wf(),
            final(self).same_frame(old(self)),
            final(self).links == old(self).links,
            match grids {
                Ok(g) => {
                    &&& g@.len() == steps@.len()
                    &&& final(self).cells@ == old(self).cells_after(pairs@, pairs@.len() as int)
                    &&& final(self).union.model() == old(self).model_after(pairs@, pairs@.len() as int)
                    &&& exists|states: Seq<Self>, roots: Seq<Seq<T>>, gs: Seq<GroupColor<T>>|
                        #[trigger] old(self).group_replayed(pairs@, steps@, limit, color_threshold_step as int, g@, states, roots, gs)
                            && gs[0] == *old(groups) && *final(groups) == gs.last()
                },
                Err(m) => {
                    &&& m < steps@.len()
                    &&& steps@[m as int] >= color_threshold_step
                    &&& final(self).cells@ == old(self).cells_after(pairs@, steps@[m as int] + 1)
                    &&& final(self).union.model() == old(self).model_after(pairs@, steps@[m as int] + 1)
                    &&& exists|g: Seq<Grid<usize>>, states: Seq<Self>, roots: Seq<Seq<T>>, gs: Seq<GroupColor<T>>|
                        #[trigger] old(self).group_replayed(pairs@, steps@, limit, color_threshold_step as int, g, states, roots, gs)
                            && g.len() == m && states.len() == m + 1 && gs[0] == *old(groups) && *final(groups) == gs.last()
                            && gs.last().groups@.len() > 0 && !gs.last().colors_suffice(roots[m as int], states[m as int].union.conn_rel())
                },
            },
    {
        let ghost orig = *self;
        let ghost g0 = *groups;
        let mut grids: Vec<Grid<usize>> = Vec::new();
        let ghost mut states: Seq<Self> = Seq::empty();
        let ghost mut roots: Seq<Seq<T>> = Seq::empty();
        let ghost mut gs: Seq<GroupColor<T>> = seq![*groups];
        let mut next: usize = 0;
        for i in 0..pairs.len()
            invariant
                self.wf(),
                self.same_frame(&orig),
                self.links == orig.links,
                orig == *old(self),
                orig.wf(),
                g0 == *old(groups),
                groups.wf(),
                forall|k: int| 0 <= k < groups.groups@.len() ==> val(#[trigger] groups.groups@[k].0) < self.union.count(),
                forall|k: int| 0 <= k < pairs@.len() ==> #[trigger] pairs@[k].0 < orig.w() && pairs@[k].1 < orig.h(),
                forall|a: int, b: int| 0 <= a < b < steps@.len() ==> #[trigger] steps@[a] < #[trigger] steps@[b],
                forall|k: int| 0 <= k < steps@.len() ==> #[trigger] steps@[k] < pairs@.len(),
                limit + 4 <= usize::MAX,
                self.cells@ == orig.cells_after(pairs@, i as int),
                self.union.model() == orig.model_after(pairs@, i as int),
                next <= steps@.len(),
                next < steps@.len() ==> steps@[next as int] >= i,
                next > 0 ==> steps@[next - 1] < i,
                grids@.len() == next,
                states.len() == next,
                gs.len() == next + 1,
                gs[0] == g0,
                *groups == gs.last(),
                orig.group_replayed(pairs@, steps@, limit, color_threshold_step as int, grids@, states, roots, gs),
        {
            let (x, y) = pairs[i];
            self.open_usize(x, y);
            proof {
                assert(self.cells@ == orig.cells_after(pairs@, i + 1));
                assert(self.union.model() == orig.model_after(pairs@, i + 1));
            }
            if next < steps.len() && steps[next] == i {
                let largest_roots = self.union.get_roots_of_largest_components(limit);
                let ghost state = *self;
                let ghost before = *groups;
                let ghost old_states = states;
                let ghost old_roots = roots;
                let ghost old_gs = gs;
                let ghost old_grids = grids@;
                proof {
                    assert(orig.group_replayed(
                        pairs@,
                        steps@,
                        limit,
                        color_threshold_step as int,
                        old_grids,
                        old_states,
                        old_roots,
                        old_gs,
                    ));
                    states = states.push(state);
                    roots = roots.push(largest_roots@);
                    assert(orig.group_state(pairs@, steps@[next as int] as int, limit, states[next as int], roots[next as int]));
                    assert forall|j: int| 0 <= j < states.len() implies #[trigger] orig.group_state(
                        pairs@,
                        steps@[j] as int,
                        limit,
                        states[j],
                        roots[j],
                    ) by {
                        if j < next {
                            assert(states[j] == old_states[j]);
                            assert(roots[j] == old_roots[j]);
                        }
                    }
                }
                if i >= color_threshold_step {
                    let updated = groups.try_update(largest_roots, &self.union);
                    if !updated {
                        proof {
                            assert(orig.group_replayed(pairs@, steps@, limit, color_threshold_step as int, grids@, states, roots, gs));
                        }
                        return Err(next);
                    }
                }
                let is_last_frame = i == pairs.len() - 1;
                let grid = groups.color_grid(self, is_last_frame);
                grids.push(grid);
                proof {
                    gs = gs.push(*groups);
                    assert(Self::group_step(steps@[next as int] as int, color_threshold_step as int, state, largest_roots@, before, *groups));
                    assert(orig.group_grid(steps@[next as int] == pairs@.len() - 1, state, *groups, grid));
                    assert forall|j: int| 0 <= j < grids@.len() implies #[trigger] Self::group_step(
                        steps@[j] as int,
                        color_threshold_step as int,
                        states[j],
                        roots[j],
                        gs[j],
                        gs[j + 1],
                    ) && orig.group_grid(steps@[j] == pairs@.len() - 1, states[j], gs[j + 1], grids@[j]) by {
                        if j < next {
                            assert(gs[j] == old_gs[j]);
                            assert(gs[j + 1] == old_gs[j + 1]);
                            assert(grids@[j] == old_grids[j]);
                            assert(states[j] == old_states[j]);
                            assert(roots[j] == old_roots[j]);
                            assert(Self::group_step(
                                steps@[j] as int,
                                color_threshold_step as int,
                                old_states[j],
                                old_roots[j],
                                old_gs[j],
                                old_gs[j + 1],
                            ));
                            assert(orig.group_grid(steps@[j] == pairs@.len() - 1, old_states[j], old_gs[j + 1], old_grids[j]));
                        } else {
                            assert(gs[j] == before);
                            assert(grids@[j] == grid);
                        }
                    }
                }
                next = next + 1;
            }
        }
        proof {
            if next < steps@.len() {
                assert(steps@[next as int] < pairs@.len());
            }
            assert(orig.group_replayed(pairs@, steps@, limit, color_threshold_step as int, grids@, states, roots, gs));
            assert(grids@.len() == steps@.len());
            assert(self.cells@ == orig.cells_after(pairs@, pairs@.len() as int));
            assert(self.union.model() == orig.model_after(pairs@, pairs@.len() as int));
            assert(gs[0] == g0 && *groups == gs.last());
        }
        Ok(grids)
    }
}

} // verus!
