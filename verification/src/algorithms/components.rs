//! Grouping nodes by a key, in ascending key order: how the union-find structures list their
//! components.
use vstd::prelude::*;

verus! {

/// Some node carries key `v`.
pub open spec fn occurs(keys: Seq<usize>, v: int) -> bool {
    exists|i: int| 0 <= i < keys.len() && keys[i] == v
}

/// The keys below `upto` that some node carries, ascending.
pub open spec fn present_keys(keys: Seq<usize>, upto: nat) -> Seq<usize>
    decreases upto,
{
    if upto == 0 {
        seq![]
    } else {
        let prev = present_keys(keys, (upto - 1) as nat);
        if occurs(keys, upto - 1) {
            prev.push((upto - 1) as usize)
        } else {
            prev
        }
    }
}

/// The nodes below `upto` that carry key `v`, ascending.
pub open spec fn members(keys: Seq<usize>, v: usize, upto: nat) -> Seq<usize>
    decreases upto,
{
    if upto == 0 {
        seq![]
    } else {
        let prev = members(keys, v, (upto - 1) as nat);
        if keys[upto - 1] == v {
            prev.push((upto - 1) as usize)
        } else {
            prev
        }
    }
}

/// The groups of nodes by key: one group per key that occurs, keys ascending, each group
/// listing its nodes ascending.
pub open spec fn grouped_by_key(keys: Seq<usize>, key_bound: nat, groups: Seq<Seq<usize>>) -> bool {
    &&& groups.len() == present_keys(keys, key_bound).len()
    &&& forall|k: int|
        0 <= k < groups.len() ==> #[trigger] groups[k] == members(
            keys,
            present_keys(keys, key_bound)[k],
            keys.len(),
        )
}

pub proof fn lemma_present_keys(keys: Seq<usize>, u: nat)
    ensures
        present_keys(keys, u).len() <= u,
        forall|j: int|
            0 <= j < present_keys(keys, u).len() ==> #[trigger] present_keys(keys, u)[j] < u,
        forall|j: int, l: int|
            0 <= j < l < present_keys(keys, u).len() ==> present_keys(keys, u)[j] < present_keys(
                keys,
                u,
            )[l],
        forall|m: nat|
            m <= u ==> #[trigger] present_keys(keys, m).len() <= present_keys(keys, u).len(),
        forall|m: nat, j: int|
            m <= u && 0 <= j < present_keys(keys, m).len() ==> #[trigger] present_keys(keys, m)[j]
                == present_keys(keys, u)[j],
    decreases u,
{
    if u > 0 {
        lemma_present_keys(keys, (u - 1) as nat);
        let prev = present_keys(keys, (u - 1) as nat);
        assert forall|m: nat, j: int|
            m <= u && 0 <= j < present_keys(keys, m).len() implies #[trigger] present_keys(
                keys,
                m,
            )[j] == present_keys(keys, u)[j] by {
            if m < u {
                assert(present_keys(keys, m)[j] == prev[j]);
            }
        }

    }
}

/// The members below `u` are below `u`.
pub proof fn lemma_members_bound(keys: Seq<usize>, v: usize, u: nat)
    ensures
        forall|j: int|
            0 <= j < members(keys, v, u).len() ==> #[trigger] members(keys, v, u)[j] < u,
    decreases u,
{
    if u > 0 {
        let prev = members(keys, v, (u - 1) as nat);
        lemma_members_bound(keys, v, (u - 1) as nat);
        assert forall|j: int| 0 <= j < members(keys, v, u).len() implies #[trigger] members(
            keys,
            v,
            u,
        )[j] < u by {
            if j < prev.len() {
                assert(members(keys, v, u)[j] == prev[j]);
            }
        }
    }
}

/// Key `v`, when it occurs, stands at its own rank among the present keys.
pub proof fn lemma_present_key_position(keys: Seq<usize>, u: nat, v: nat)
    requires
        v < u,
        occurs(keys, v as int),
    ensures
        present_keys(keys, v).len() < present_keys(keys, u).len(),
        present_keys(keys, u)[present_keys(keys, v).len() as int] == v,
    decreases u,
{
    let prev = present_keys(keys, (u - 1) as nat);
    if v == u - 1 {
        assert(present_keys(keys, u) == prev.push(v as usize));
    } else {
        lemma_present_key_position(keys, (u - 1) as nat, v);
        assert(present_keys(keys, u)[present_keys(keys, v).len() as int] == prev[present_keys(
            keys,
            v,
        ).len() as int]);
    }
}

/// Groups the nodes `0..keys.len()` by their key, all keys being below `key_bound`.
pub fn group_by_key(keys: &Vec<usize>, key_bound: usize) -> (groups: Vec<Vec<usize>>)
    requires
        forall|i: int| 0 <= i < keys@.len() ==> #[trigger] keys@[i] < key_bound,
    ensures
        grouped_by_key(keys@, key_bound as nat, groups@.map_values(|g: Vec<usize>| g@)),
{
    let n = keys.len();
    let mut present: Vec<bool> = Vec::with_capacity(key_bound);
    for v in 0..key_bound
        invariant
            present@.len() == v,
            forall|w: int| 0 <= w < v ==> !present@[w],
    {
        present.push(false);
    }
    for i in 0..n
        invariant
            n == keys@.len(),
            present@.len() == key_bound,
            forall|k: int| 0 <= k < keys@.len() ==> #[trigger] keys@[k] < key_bound,
            forall|w: int|
                0 <= w < key_bound ==> (#[trigger] present@[w] <==> exists|j: int|
                    0 <= j < i && keys@[j] == w),
    {
        let k = keys[i];
        present[k] = true;
        proof {
            assert forall|w: int| 0 <= w < key_bound implies (#[trigger] present@[w] <==> exists|j: int|
                0 <= j < i + 1 && keys@[j] == w) by {
                if w == k {
                    assert(keys@[i as int] == w);
                }
            }
        }
    }
    let ghost pk = present_keys(keys@, key_bound as nat);
    proof {
        lemma_present_keys(keys@, key_bound as nat);
    }
    let mut pos: Vec<usize> = Vec::with_capacity(key_bound);
    let mut count: usize = 0;
    for v in 0..key_bound
        invariant
            n == keys@.len(),
            present@.len() == key_bound,
            forall|w: int|
                0 <= w < key_bound ==> (#[trigger] present@[w] <==> occurs(keys@, w)),
            pos@.len() == v,
            count == present_keys(keys@, v as nat).len(),
            count <= v,
            forall|w: int| 0 <= w < v ==> #[trigger] pos@[w] == present_keys(keys@, w as nat).len(),
    {
        pos.push(count);
        if present[v] {
            count = count + 1;
        }
    }
    let mut groups: Vec<Vec<usize>> = Vec::with_capacity(count);
    for k in 0..count
        invariant
            groups@.len() == k,
            forall|j: int| 0 <= j < k ==> (#[trigger] groups@[j])@ == Seq::<usize>::empty(),
    {
        groups.push(Vec::new());
    }
    for i in 0..n
        invariant
            n == keys@.len(),
            pk == present_keys(keys@, key_bound as nat),
            groups@.len() == count,
            count == pk.len(),
            pos@.len() == key_bound,
            forall|k: int| 0 <= k < keys@.len() ==> #[trigger] keys@[k] < key_bound,
            forall|w: int|
                0 <= w < key_bound ==> #[trigger] pos@[w] == present_keys(keys@, w as nat).len(),
            forall|k: int| 0 <= k < count ==> (#[trigger] groups@[k])@ == members(keys@, pk[k], i as nat),
    {
        let key = keys[i];
        let k = pos[key];
        proof {
            assert(occurs(keys@, key as int)) by {
                assert(keys@[i as int] == key);
            }
            assert(k == present_keys(keys@, key as nat).len());
            lemma_present_key_position(keys@, key_bound as nat, key as nat);
            lemma_present_keys(keys@, key_bound as nat);
            assert(pk[k as int] == key);
        }
        groups[k].push(i);
        proof {
            assert forall|j: int| 0 <= j < count implies (#[trigger] groups@[j])@ == members(
                keys@,
                pk[j],
                (i + 1) as nat,
            ) by {
                if j < k {
                    assert(pk[j] < pk[k as int]);
                } else if j > k {
                    assert(pk[k as int] < pk[j]);
                }
            }
        }
    }
    proof {
        assert(groups@.map_values(|g: Vec<usize>| g@).len() == pk.len());
    }
    groups
}

/// Index `i` has a size above one.
pub open spec fn is_candidate(sizes: Seq<usize>, i: int) -> bool {
    0 <= i < sizes.len() && sizes[i] > 1
}

/// `i` comes before `j`: a larger size first, and on equal sizes the smaller index first.
pub open spec fn comes_before(sizes: Seq<usize>, i: int, j: int) -> bool {
    sizes[i] > sizes[j] || (sizes[i] == sizes[j] && i < j)
}

/// `r` lists the first `limit` indices with size above one, largest size first and, on equal
/// sizes, smallest index first (all of them when there are fewer than `limit`).
pub open spec fn largest_first(sizes: Seq<usize>, limit: nat, r: Seq<usize>) -> bool {
    &&& r.len() <= limit
    &&& forall|k: int| 0 <= k < r.len() ==> #[trigger] is_candidate(sizes, r[k] as int)
    &&& forall|k: int, l: int|
        0 <= k < l < r.len() ==> comes_before(sizes, #[trigger] r[k] as int, #[trigger] r[l] as int)
    &&& forall|c: int|
        #[trigger] is_candidate(sizes, c) && !r.contains(c as usize) ==> r.len() == limit && forall|
            k: int,
        |
            0 <= k < r.len() ==> comes_before(sizes, #[trigger] r[k] as int, c)
}

/// The indices of the `limit` largest sizes above one, largest first, ties by index.
pub fn largest_first_indices(sizes: &Vec<usize>, limit: usize) -> (r: Vec<usize>)
    ensures
        largest_first(sizes@, limit as nat, r@),
{
    let n = sizes.len();
    let mut result: Vec<usize> = Vec::new();
    while result.len() < limit
        invariant
            n == sizes@.len(),
            result@.len() <= limit,
            forall|k: int| 0 <= k < result@.len() ==> #[trigger] is_candidate(sizes@, result@[k] as int),
            forall|k: int, l: int|
                0 <= k < l < result@.len() ==> comes_before(
                    sizes@,
                    #[trigger] result@[k] as int,
                    #[trigger] result@[l] as int,
                ),
            forall|c: int|
                #[trigger] is_candidate(sizes@, c) && !result@.contains(c as usize) ==> forall|k: int|
                    0 <= k < result@.len() ==> comes_before(sizes@, #[trigger] result@[k] as int, c),
        ensures
            largest_first(sizes@, limit as nat, result@),
        decreases limit - result@.len(),
    {
        let have_last = result.len() > 0;
        let last = if have_last {
            result[result.len() - 1]
        } else {
            0
        };
        let mut best = n;
        proof {
            if have_last {
                assert(is_candidate(sizes@, result@[result@.len() - 1] as int));
            }
        }
        for i in 0..n
            invariant
                n == sizes@.len(),
                have_last == (result@.len() > 0),
                have_last ==> last == result@[result@.len() - 1],
                have_last ==> last < n,
                best == n || (best < i && is_candidate(sizes@, best as int) && (have_last
                    ==> comes_before(sizes@, last as int, best as int))),
                forall|j: int|
                    0 <= j < i && #[trigger] is_candidate(sizes@, j) && (have_last ==> comes_before(
                        sizes@,
                        last as int,
                        j,
                    )) ==> best != n && (j == best || comes_before(sizes@, best as int, j)),
        {
            if sizes[i] > 1 && (!have_last || sizes[last] > sizes[i] || (sizes[last] == sizes[i]
                && last < i)) && (best == n || sizes[i] > sizes[best] || (sizes[i] == sizes[best]
                && i < best)) {
                best = i;
            }
        }
        if best == n {
            proof {
                assert forall|c: int| #[trigger]
                    is_candidate(sizes@, c) && !result@.contains(c as usize) implies result@.len()
                    == limit && forall|k: int|
                    0 <= k < result@.len() ==> comes_before(sizes@, #[trigger] result@[k] as int, c) by {
                    if have_last {
                        assert(comes_before(sizes@, result@[result@.len() - 1] as int, c));
                    }
                }
            }
            break ;
        }
        let ghost old_result = result@;
        result.push(best);
        proof {
            assert(old_result.len() > 0 ==> last == old_result[old_result.len() - 1]);
            assert forall|k: int, l: int|
                0 <= k < l < result@.len() implies comes_before(
                sizes@,
                #[trigger] result@[k] as int,
                #[trigger] result@[l] as int,
            ) by {
                if l == result@.len() - 1 && k < l - 1 {
                    assert(comes_before(sizes@, old_result[k] as int, last as int));
                }
            }
            assert forall|c: int| #[trigger]
                is_candidate(sizes@, c) && !result@.contains(c as usize) implies forall|k: int|
                0 <= k < result@.len() ==> comes_before(sizes@, #[trigger] result@[k] as int, c) by {
                assert(!old_result.contains(c as usize)) by {
                    if old_result.contains(c as usize) {
                        let w = choose|w: int| 0 <= w < old_result.len() && old_result[w] == c as usize;
                        assert(result@[w] == c as usize);
                    }
                }
                assert(c != best as int) by {
                    assert(result@[result@.len() - 1] == best);
                }
                if have_last {
                    assert(comes_before(sizes@, old_result[old_result.len() - 1] as int, c));
                }
            }
        }
    }
    result
}

} // verus!
