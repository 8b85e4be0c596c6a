//! Undirected graphs over numbered nodes: shortest distances and articulation
//! points.

use vstd::prelude::*;

verus! {

/// Whether two nodes are neighbours.
pub type Relation = spec_fn(int, int) -> bool;

/// Whether `v` is a node of a graph with `n` nodes other than `avoid`.
pub open spec fn allowed(n: int, avoid: int, v: int) -> bool {
    0 <= v < n && v != avoid
}

/// Whether a walk of `k` steps leads from `u` to `v` without `avoid`.
pub open spec fn walk(n: int, rel: Relation, avoid: int, u: int, v: int, k: nat) -> bool
    decreases k,
{
    if k == 0 {
        u == v && allowed(n, avoid, u)
    } else {
        allowed(n, avoid, v) && exists|m: int|
            #[trigger] rel(m, v) && walk(n, rel, avoid, u, m, (k - 1) as nat)
    }
}

/// Whether any walk leads from `u` to `v` without `avoid`.
pub open spec fn joined(n: int, rel: Relation, avoid: int, u: int, v: int) -> bool {
    exists|k: nat| #[trigger] walk(n, rel, avoid, u, v, k)
}

/// Whether taking out `v` parts two nodes that are joined: an articulation point.
pub open spec fn parts(n: int, rel: Relation, v: int) -> bool {
    exists|u: int, w: int|
        u != v && w != v && #[trigger] joined(n, rel, -1, u, w) && !joined(n, rel, v, u, w)
}

/// Whether neighbours are neighbours of each other, and none of itself.
pub open spec fn undirected(n: int, rel: Relation) -> bool {
    forall|i: int, j: int| #[trigger]
        rel(i, j) ==> rel(j, i) && i != j && 0 <= i < n && 0 <= j < n
}

/// What a walk of one step more needs.
proof fn lemma_step(n: int, rel: Relation, avoid: int, u: int, m: int, v: int, k: nat)
    requires
        walk(n, rel, avoid, u, m, k),
        rel(m, v),
        allowed(n, avoid, v),
    ensures
        walk(n, rel, avoid, u, v, k + 1),
{
    assert((k + 1 - 1) as nat == k);
    assert(rel(m, v) && walk(n, rel, avoid, u, m, (k + 1 - 1) as nat));
}

/// The last step of a walk.
proof fn lemma_last_step(n: int, rel: Relation, avoid: int, u: int, v: int, k: nat) -> (m: int)
    requires
        walk(n, rel, avoid, u, v, k),
        k > 0,
    ensures
        walk(n, rel, avoid, u, m, (k - 1) as nat),
        rel(m, v),
        allowed(n, avoid, v),
{
    choose|m: int| #[trigger] rel(m, v) && walk(n, rel, avoid, u, m, (k - 1) as nat)
}

/// Both ends of a walk are nodes that it may use.
proof fn lemma_ends(n: int, rel: Relation, avoid: int, u: int, v: int, k: nat)
    requires
        walk(n, rel, avoid, u, v, k),
    ensures
        allowed(n, avoid, u),
        allowed(n, avoid, v),
    decreases k,
{
    if k > 0 {
        let m = lemma_last_step(n, rel, avoid, u, v, k);
        lemma_ends(n, rel, avoid, u, m, (k - 1) as nat);
    }
}

/// Walks can be put one after the other.
proof fn lemma_append(n: int, rel: Relation, avoid: int, u: int, m: int, v: int, i: nat, j: nat)
    requires
        walk(n, rel, avoid, u, m, i),
        walk(n, rel, avoid, m, v, j),
    ensures
        walk(n, rel, avoid, u, v, i + j),
    decreases j,
{
    if j > 0 {
        let x = lemma_last_step(n, rel, avoid, m, v, j);
        lemma_append(n, rel, avoid, u, m, x, i, (j - 1) as nat);
        lemma_step(n, rel, avoid, u, x, v, (i + j - 1) as nat);
    }
}

proof fn lemma_joined_trans(n: int, rel: Relation, avoid: int, u: int, m: int, v: int)
    requires
        joined(n, rel, avoid, u, m),
        joined(n, rel, avoid, m, v),
    ensures
        joined(n, rel, avoid, u, v),
{
    let i = choose|k: nat| #[trigger] walk(n, rel, avoid, u, m, k);
    let j = choose|k: nat| #[trigger] walk(n, rel, avoid, m, v, k);
    lemma_append(n, rel, avoid, u, m, v, i, j);
}

/// In an undirected graph walks can be turned round.
proof fn lemma_joined_sym(n: int, rel: Relation, avoid: int, u: int, v: int, k: nat)
    requires
        undirected(n, rel),
        walk(n, rel, avoid, u, v, k),
    ensures
        joined(n, rel, avoid, v, u),
    decreases k,
{
    if k == 0 {
        assert(walk(n, rel, avoid, v, u, 0));
    } else {
        let m = lemma_last_step(n, rel, avoid, u, v, k);
        lemma_joined_sym(n, rel, avoid, u, m, (k - 1) as nat);
        lemma_ends(n, rel, avoid, u, m, (k - 1) as nat);
        assert(rel(v, m));
        assert(walk(n, rel, avoid, v, v, 0));
        lemma_step(n, rel, avoid, v, v, m, 0);
        assert(walk(n, rel, avoid, v, m, 1));
        lemma_joined_trans(n, rel, avoid, v, m, u);
    }
}

// ---------------------------------------------------------------------------
// Adjacency lists
// ---------------------------------------------------------------------------

/// The relation that adjacency lists stand for.
pub open spec fn relation_of(adjacency: Seq<Vec<usize>>) -> Relation {
    |i: int, j: int|
        0 <= i < adjacency.len() && 0 <= j < adjacency.len() && adjacency[i]@.contains(j as usize)
}

/// Whether `list` goes up without repeating itself.
pub open spec fn ascending(list: Seq<usize>) -> bool {
    forall|i: int, j: int| #![trigger list[i], list[j]] 0 <= i < j < list.len() ==> list[i] < list[j]
}

/// Whether the lists are ascending, stay inside the graph, and mirror each other.
pub open spec fn well_formed(adjacency: Seq<Vec<usize>>) -> bool {
    &&& adjacency.len() <= usize::MAX
    &&& forall|i: int| 0 <= i < adjacency.len() ==> ascending((#[trigger] adjacency[i])@)
    &&& forall|i: int, k: int|
        0 <= i < adjacency.len() && 0 <= k < adjacency[i]@.len() ==> #[trigger] adjacency[i]@[k]
            < adjacency.len()
    &&& undirected(adjacency.len() as int, relation_of(adjacency))
}

/// What a breadth-first search finds.
#[derive(Debug)]
pub struct Distances {
    /// The nodes that can be reached, nearest first.
    pub order: Vec<usize>,
    /// How many steps away each node is; `usize::MAX` for one that cannot be
    /// reached.
    pub dist: Vec<usize>,
}

/// Whether `d` is how many steps the shortest walk from `u` to `v` takes, with
/// `usize::MAX` where there is none.
pub open spec fn is_distance(n: int, rel: Relation, avoid: int, u: int, v: int, d: usize) -> bool {
    if d == usize::MAX {
        !joined(n, rel, avoid, u, v)
    } else {
        walk(n, rel, avoid, u, v, d as nat) && forall|k: nat| #[trigger]
            walk(n, rel, avoid, u, v, k) ==> d <= k
    }
}

/// A list of different numbers below `n` has at most `n` of them.
proof fn lemma_distinct_bounded(s: Seq<usize>, n: nat)
    requires
        s.no_duplicates(),
        forall|i: int| 0 <= i < s.len() ==> #[trigger] s[i] < n,
    ensures
        s.len() <= n,
{
    let whole = vstd::set_lib::set_int_range(0, n as int);
    vstd::set_lib::lemma_int_range(0, n as int);
    let ints = s.map_values(|x: usize| x as int);
    assert(ints.no_duplicates()) by {
        assert forall|i: int, j: int|
            0 <= i < ints.len() && 0 <= j < ints.len() && i != j implies ints[i] != ints[j] by {
            assert(s[i] != s[j]);
        }
    }
    ints.unique_seq_to_set();
    assert(ints.to_set().subset_of(whole)) by {
        assert forall|x: int| ints.to_set().contains(x) implies whole.contains(x) by {
            let i = choose|i: int| 0 <= i < ints.len() && ints[i] == x;
            assert(s[i] < n);
        }
    }
    vstd::set_lib::lemma_len_subset(ints.to_set(), whole);
}

/// Every distance is right once each step from a reached node leads at most one
/// further.
proof fn lemma_closed(
    n: int,
    rel: Relation,
    avoid: int,
    u: int,
    dist: Seq<usize>,
    v: int,
    k: nat,
)
    requires
        dist.len() == n,
        allowed(n, avoid, u),
        dist[u] == 0,
        forall|x: int, y: int|
            allowed(n, avoid, x) && allowed(n, avoid, y) && dist[x] != usize::MAX && #[trigger] rel(
                x,
                y,
            ) ==> dist[y] != usize::MAX && dist[y] <= dist[x] + 1,
        walk(n, rel, avoid, u, v, k),
    ensures
        dist[v] != usize::MAX,
        dist[v] <= k,
    decreases k,
{
    if k > 0 {
        let m = lemma_last_step(n, rel, avoid, u, v, k);
        lemma_ends(n, rel, avoid, u, m, (k - 1) as nat);
        lemma_closed(n, rel, avoid, u, dist, m, (k - 1) as nat);
    }
}

/// Breadth-first search from `source`, over every node but `avoid` (any number
/// that is no node avoids none).
pub fn distances(adjacency: &Vec<Vec<usize>>, source: usize, avoid: usize) -> (r: Distances)
    requires
        well_formed(adjacency@),
        allowed(adjacency@.len() as int, avoid as int, source as int),
    ensures
        r.dist@.len() == adjacency@.len(),
        forall|v: int|
            0 <= v < adjacency@.len() ==> is_distance(
                adjacency@.len() as int,
                relation_of(adjacency@),
                avoid as int,
                source as int,
                v,
                #[trigger] r.dist@[v],
            ),
        r.order@.no_duplicates(),
        forall|v: usize| #[trigger]
            r.order@.contains(v) <==> v < adjacency@.len() && r.dist@[v as int] != usize::MAX,
        forall|i: int, j: int|
            #![trigger r.order@[i], r.order@[j]]
            0 <= i < j < r.order@.len() ==> r.dist@[r.order@[i] as int]
                <= r.dist@[r.order@[j] as int],
{
    let n: usize = adjacency.len();
    let ghost rel = relation_of(adjacency@);
    let ghost s = source as int;
    let ghost a = avoid as int;
    let mut dist: Vec<usize> = Vec::new();
    let mut i: usize = 0;
    while i < n
        invariant
            i <= n,
            dist@.len() == i,
            forall|v: int| 0 <= v < i ==> #[trigger] dist@[v] == usize::MAX,
        decreases n - i,
    {
        dist.push(usize::MAX);
        i += 1;
    }
    dist.set(source, 0);
    let mut order: Vec<usize> = Vec::new();
    order.push(source);
    let mut head: usize = 0;
    proof {
        assert(order@.contains(source)) by {
            assert(order@[0] == source);
        }
        assert(walk(n as int, rel, a, s, s, 0));
        assert(n > 0 && n <= usize::MAX);
    }
    while head < order.len()
        invariant
            n == adjacency@.len(),
            well_formed(adjacency@),
            rel == relation_of(adjacency@),
            s == source,
            a == avoid,
            allowed(n as int, a, s),
            dist@.len() == n,
            dist@[s] == 0,
            head <= order@.len() <= n,
            order@.no_duplicates(),
            forall|v: usize| #[trigger]
                order@.contains(v) <==> v < n && dist@[v as int] != usize::MAX,
            forall|k: int| 0 <= k < order@.len() ==> allowed(n as int, a, #[trigger] order@[k] as int),
            forall|v: int|
                0 <= v < n && #[trigger] dist@[v] != usize::MAX ==> dist@[v] < n && walk(
                    n as int,
                    rel,
                    a,
                    s,
                    v,
                    dist@[v] as nat,
                ),
            forall|k: int| 0 <= k < order@.len() ==> dist@[#[trigger] order@[k] as int] <= k,
            forall|k: int, l: int|
                #![trigger order@[k], order@[l]]
                0 <= k < l < order@.len() ==> dist@[order@[k] as int] <= dist@[order@[l] as int],
            head < order@.len() ==> forall|k: int|
                0 <= k < order@.len() ==> dist@[#[trigger] order@[k] as int]
                    <= dist@[order@[head as int] as int] + 1,
            forall|k: int, y: int|
                0 <= k < head && allowed(n as int, a, y) && #[trigger] rel(order@[k] as int, y)
                    ==> dist@[y] != usize::MAX && dist@[y] <= dist@[order@[k] as int] + 1,
        decreases n - head,
    {
        let v: usize = order[head];
        assert(order@.contains(v));
        let d: usize = dist[v];
        let ghost before = order@;
        let ghost dist0 = dist@;
        let mut j: usize = 0;
        proof {
            assert(allowed(n as int, a, order@[head as int] as int));
        }
        while j < adjacency[v as usize].len()
            invariant
                n == adjacency@.len(),
                well_formed(adjacency@),
                rel == relation_of(adjacency@),
                s == source,
                a == avoid,
                allowed(n as int, a, s),
                allowed(n as int, a, v as int),
                v < n,
                dist@.len() == n,
                dist@[s] == 0,
                head < before.len() <= order@.len() <= n,
                order@.take(before.len() as int) == before,
                v == before[head as int],
                v == order@[head as int],
                d == dist@[v as int],
                d < n,
                walk(n as int, rel, a, s, v as int, d as nat),
                order@.no_duplicates(),
                forall|w: usize| #[trigger]
                    order@.contains(w) <==> w < n && dist@[w as int] != usize::MAX,
                forall|k: int|
                    0 <= k < order@.len() ==> allowed(n as int, a, #[trigger] order@[k] as int),
                forall|w: int|
                    0 <= w < n && #[trigger] dist@[w] != usize::MAX ==> dist@[w] < n && walk(
                        n as int,
                        rel,
                        a,
                        s,
                        w,
                        dist@[w] as nat,
                    ),
                forall|k: int| 0 <= k < order@.len() ==> dist@[#[trigger] order@[k] as int] <= k,
                forall|k: int, l: int|
                    #![trigger order@[k], order@[l]]
                    0 <= k < l < order@.len() ==> dist@[order@[k] as int] <= dist@[order@[l] as int],
                forall|k: int|
                    0 <= k < order@.len() ==> dist@[#[trigger] order@[k] as int] <= d + 1,
                forall|k: int, y: int|
                    0 <= k < head && allowed(n as int, a, y) && #[trigger] rel(order@[k] as int, y)
                        ==> dist@[y] != usize::MAX && dist@[y] <= dist@[order@[k] as int] + 1,
                j <= adjacency@[v as int]@.len(),
                forall|k: int|
                    0 <= k < j && allowed(n as int, a, adjacency@[v as int]@[k] as int)
                        ==> dist@[#[trigger] adjacency@[v as int]@[k] as int] != usize::MAX
                        && dist@[adjacency@[v as int]@[k] as int] <= d + 1,
            decreases adjacency@[v as int]@.len() - j,
        {
            let w: usize = adjacency[v as usize][j];
            proof {
                assert(adjacency@[v as int]@[j as int] < n);
                assert(adjacency@[v as int]@.contains(w));
                assert(rel(v as int, w as int));
            }
            if w != avoid && dist[w] == usize::MAX {
                let ghost order0 = order@;
                let ghost dist1 = dist@;
                proof {
                    assert(!order0.contains(w));
                    lemma_step(n as int, rel, a, s, v as int, w as int, d as nat);
                    lemma_distinct_bounded(order0.push(w), n as nat);
                }
                dist.set(w, d + 1);
                order.push(w);
                proof {
                    assert(order@.take(before.len() as int) =~= before);
                    assert forall|x: usize| #[trigger] order@.contains(x) <==> x < n
                        && dist@[x as int] != usize::MAX by {
                        if order@.contains(x) {
                            let k = choose|k: int| 0 <= k < order@.len() && order@[k] == x;
                            if k < order0.len() {
                                assert(order0[k] == x);
                                assert(order0.contains(x));
                            }
                        }
                        if x < n && dist@[x as int] != usize::MAX {
                            if x == w {
                                assert(order@[order0.len() as int] == w);
                            } else {
                                assert(order0.contains(x));
                                let k = choose|k: int| 0 <= k < order0.len() && order0[k] == x;
                                assert(order@[k] == x);
                            }
                        }
                    }
                    assert forall|k: int| 0 <= k < order0.len() implies #[trigger] order0[k]
                        != w by {
                        assert(order0.contains(order0[k]));
                    }
                    assert forall|k: int| 0 <= k < order@.len() implies dist@[#[trigger] order@[k] as int]
                        <= k by {
                        if k < order0.len() {
                            assert(order0[k] == order@[k]);
                            assert(dist1[order0[k] as int] <= k);
                        } else {
                            assert(dist1[order0[head as int] as int] <= head);
                        }
                    }
                    assert forall|k: int, l: int|
                        #![trigger order@[k], order@[l]]
                        0 <= k < l < order@.len() implies dist@[order@[k] as int]
                        <= dist@[order@[l] as int] by {
                        assert(order@[k] == order0[k]);
                        if l < order0.len() {
                            assert(order@[l] == order0[l]);
                        }
                    }
                    assert(dist@[order@[order0.len() as int] as int] == d + 1);
                    assert(d + 1 < n) by {
                        assert(dist@[order@[order0.len() as int] as int] <= order0.len());
                    }
                    assert forall|k: int, y: int|
                        0 <= k < head && allowed(n as int, a, y) && #[trigger] rel(
                            order@[k] as int,
                            y,
                        ) implies dist@[y] != usize::MAX && dist@[y] <= dist@[order@[k] as int]
                        + 1 by {
                        assert(order@[k] == order0[k]);
                        assert(rel(order0[k] as int, y));
                    }
                }
            }
            proof {
                if w != avoid {
                    assert(order@.contains(w));
                    let k = choose|k: int| 0 <= k < order@.len() && order@[k] == w;
                    assert(dist@[order@[k] as int] <= d + 1);
                }
            }
            j += 1;
        }
        proof {
            assert forall|k: int, y: int|
                0 <= k < head + 1 && allowed(n as int, a, y) && #[trigger] rel(order@[k] as int, y)
                implies dist@[y] != usize::MAX && dist@[y] <= dist@[order@[k] as int] + 1 by {
                if k == head {
                    assert(adjacency@[v as int]@.contains(y as usize));
                    let l = choose|l: int|
                        0 <= l < adjacency@[v as int]@.len() && adjacency@[v as int]@[l]
                            == y as usize;
                    assert(dist@[adjacency@[v as int]@[l] as int] <= d + 1);
                }
            }
            if head + 1 < order@.len() {
                assert forall|k: int| 0 <= k < order@.len() implies dist@[
                #[trigger] order@[k] as int] <= dist@[order@[head + 1] as int] + 1 by {
                    assert(dist@[order@[head as int] as int] <= dist@[order@[head + 1] as int]);
                }
            }
        }
        head += 1;
    }
    proof {
        assert forall|x: int, y: int|
            allowed(n as int, a, x) && allowed(n as int, a, y) && dist@[x] != usize::MAX
                && #[trigger] rel(x, y) implies dist@[y] != usize::MAX && dist@[y] <= dist@[x]
            + 1 by {
            assert(order@.contains(x as usize));
            let k = choose|k: int| 0 <= k < order@.len() && order@[k] == x as usize;
            assert(rel(order@[k] as int, y));
        }
        assert forall|v: int| 0 <= v < n implies is_distance(
            n as int,
            rel,
            a,
            s,
            v,
            #[trigger] dist@[v],
        ) by {
            assert forall|k: nat| #[trigger] walk(n as int, rel, a, s, v, k) implies dist@[v]
                != usize::MAX && dist@[v] <= k by {
                lemma_closed(n as int, rel, a, s, dist@, v, k);
            }
        }
    }
    Distances { order, dist }
}

// ---------------------------------------------------------------------------
// Articulation points
// ---------------------------------------------------------------------------

/// Where all neighbours of `v` are joined without `v`, whatever a walk reaches is
/// reached without `v` too, and where a walk ends at `v` some neighbour of `v` is.
proof fn lemma_detour(n: int, rel: Relation, v: int, hub: int, u: int, w: int, k: nat)
    requires
        undirected(n, rel),
        u != v,
        0 <= v < n,
        forall|x: int| #[trigger] rel(v, x) ==> joined(n, rel, v, hub, x),
        walk(n, rel, -1, u, w, k),
    ensures
        w != v ==> joined(n, rel, v, u, w),
        w == v ==> exists|x: int| #[trigger] rel(v, x) && joined(n, rel, v, u, x),
    decreases k,
{
    if k == 0 {
        assert(walk(n, rel, v, u, w, 0));
    } else {
        let m = lemma_last_step(n, rel, -1, u, w, k);
        lemma_detour(n, rel, v, hub, u, m, (k - 1) as nat);
        if m != v && w != v {
            let i = choose|i: nat| #[trigger] walk(n, rel, v, u, m, i);
            lemma_step(n, rel, v, u, m, w, i);
        } else if m != v {
            assert(rel(v, m));
        } else {
            let x = choose|x: int| #[trigger] rel(v, x) && joined(n, rel, v, u, x);
            assert(rel(v, w));
            let i = choose|i: nat| #[trigger] walk(n, rel, v, hub, x, i);
            lemma_joined_sym(n, rel, v, hub, x, i);
            lemma_joined_trans(n, rel, v, u, x, hub);
            lemma_joined_trans(n, rel, v, u, hub, w);
        }
    }
}

/// Whether taking out `v` parts two nodes that are joined. It does if and only if
/// some neighbour of `v` cannot be reached from another without `v`.
pub fn is_articulation(adjacency: &Vec<Vec<usize>>, v: usize) -> (r: bool)
    requires
        well_formed(adjacency@),
        v < adjacency@.len(),
    ensures
        r == parts(adjacency@.len() as int, relation_of(adjacency@), v as int),
{
    let ghost n = adjacency@.len() as int;
    let ghost rel = relation_of(adjacency@);
    let ghost c = v as int;
    if adjacency[v].len() == 0 {
        proof {
            assert forall|u: int, w: int|
                u != c && w != c && #[trigger] joined(n, rel, -1, u, w) implies joined(
                n,
                rel,
                c,
                u,
                w,
            ) by {
                let k = choose|k: nat| #[trigger] walk(n, rel, -1, u, w, k);
                lemma_detour(n, rel, c, u, u, w, k);
            }
        }
        return false;
    }
    let hub: usize = adjacency[v][0];
    proof {
        assert(adjacency@[c]@[0] < n);
        assert(adjacency@[c]@.contains(hub));
        assert(rel(c, hub as int));
    }
    let found = distances(adjacency, hub, v);
    let mut j: usize = 0;
    while j < adjacency[v].len()
        invariant
            well_formed(adjacency@),
            n == adjacency@.len(),
            rel == relation_of(adjacency@),
            c == v,
            0 <= c < n,
            rel(c, hub as int),
            hub < n,
            found.dist@.len() == n,
            forall|x: int|
                0 <= x < n ==> is_distance(n, rel, c, hub as int, x, #[trigger] found.dist@[x]),
            j <= adjacency@[c]@.len(),
            forall|k: int|
                0 <= k < j ==> found.dist@[#[trigger] adjacency@[c]@[k] as int] != usize::MAX,
        decreases adjacency@[c]@.len() - j,
    {
        let x: usize = adjacency[v][j];
        proof {
            assert(adjacency@[c]@[j as int] < n);
            assert(adjacency@[c]@.contains(x));
            assert(rel(c, x as int));
        }
        if found.dist[x] == usize::MAX {
            proof {
                let h = hub as int;
                assert(!joined(n, rel, c, h, x as int));
                assert(rel(h, c));
                assert(walk(n, rel, -1, h, h, 0));
                lemma_step(n, rel, -1, h, h, c, 0);
                lemma_step(n, rel, -1, h, c, x as int, 1);
                assert(walk(n, rel, -1, h, x as int, 2));
                assert(joined(n, rel, -1, h, x as int));
            }
            return true;
        }
        j += 1;
    }
    proof {
        assert forall|x: int| #[trigger] rel(c, x) implies joined(n, rel, c, hub as int, x) by {
            let k = choose|k: int|
                0 <= k < adjacency@[c]@.len() && adjacency@[c]@[k] == x as usize;
            assert(found.dist@[adjacency@[c]@[k] as int] != usize::MAX);
            assert(is_distance(n, rel, c, hub as int, x, found.dist@[x]));
        }
        assert forall|u: int, w: int|
            u != c && w != c && #[trigger] joined(n, rel, -1, u, w) implies joined(
            n,
            rel,
            c,
            u,
            w,
        ) by {
            let k = choose|k: nat| #[trigger] walk(n, rel, -1, u, w, k);
            lemma_detour(n, rel, c, hub as int, u, w, k);
        }
    }
    false
}

// ---------------------------------------------------------------------------
// Building adjacency lists
// ---------------------------------------------------------------------------

/// Puts `x` into an ascending list, if it is not in it yet.
pub fn insert_ascending(list: &mut Vec<usize>, x: usize)
    requires
        ascending(old(list)@),
    ensures
        ascending(final(list)@),
        forall|y: usize| #[trigger]
            final(list)@.contains(y) <==> y == x || old(list)@.contains(y),
{
    let ghost before = list@;
    let mut k: usize = list.len();
    while k > 0 && list[k - 1] > x
        invariant
            k <= list@.len(),
            list@ == before,
            forall|i: int| k <= i < list@.len() ==> #[trigger] list@[i] > x,
        decreases k,
    {
        k -= 1;
    }
    if k > 0 && list[k - 1] == x {
        assert(before[k - 1] == x);
        return;
    }
    list.insert(k, x);
    proof {
        let after = list@;
        assert forall|i: int, j: int| #![trigger after[i], after[j]] 0 <= i < j < after.len()
            implies after[i] < after[j] by {
            if i < k && j == k {
                if i < k - 1 {
                    assert(before[i] < before[k - 1]);
                }
            }
        }
        assert forall|y: usize| #[trigger] after.contains(y) <==> y == x || before.contains(y) by {
            if after.contains(y) {
                let i = choose|i: int| 0 <= i < after.len() && after[i] == y;
                if i < k {
                    assert(before[i] == y);
                } else if i > k {
                    assert(before[i - 1] == y);
                }
            }
            if before.contains(y) {
                let i = choose|i: int| 0 <= i < before.len() && before[i] == y;
                if i < k {
                    assert(after[i] == y);
                } else {
                    assert(after[i + 1] == y);
                }
            }
            if y == x {
                assert(after[k as int] == x);
            }
        }
    }
}

/// Whether one of `pairs` is made of `i` and `j`, in either order.
pub open spec fn paired(pairs: Seq<(usize, usize)>, i: int, j: int) -> bool {
    exists|k: int| 0 <= k < pairs.len() && #[trigger] is_pair(pairs[k], i, j)
}

/// Whether a pair is made of `i` and `j`, in either order.
pub open spec fn is_pair(pair: (usize, usize), i: int, j: int) -> bool {
    (pair.0 == i && pair.1 == j) || (pair.0 == j && pair.1 == i)
}

/// The adjacency lists of a graph with `n` nodes whose edges are `pairs`, their
/// direction ignored; a pair of a node with itself is no edge.
pub fn adjacency_of(n: usize, pairs: &Vec<(usize, usize)>) -> (r: Vec<Vec<usize>>)
    requires
        forall|k: int| 0 <= k < pairs@.len() ==> (#[trigger] pairs@[k]).0 < n && pairs@[k].1 < n,
    ensures
        r@.len() == n,
        well_formed(r@),
        forall|i: int, j: int| #[trigger]
            relation_of(r@)(i, j) <==> 0 <= i < n && 0 <= j < n && i != j && paired(pairs@, i, j),
{
    let mut out: Vec<Vec<usize>> = Vec::new();
    let mut i: usize = 0;
    while i < n
        invariant
            i <= n,
            out@.len() == i,
            forall|k: int| 0 <= k < i ==> (#[trigger] out@[k])@.len() == 0,
        decreases n - i,
    {
        out.push(Vec::new());
        i += 1;
    }
    let mut k: usize = 0;
    while k < pairs.len()
        invariant
            k <= pairs@.len(),
            forall|l: int|
                0 <= l < pairs@.len() ==> (#[trigger] pairs@[l]).0 < n && pairs@[l].1 < n,
            out@.len() == n,
            forall|x: int| 0 <= x < n ==> ascending((#[trigger] out@[x])@),
            forall|x: int, y: usize|
                0 <= x < n ==> (#[trigger] out@[x]@.contains(y) <==> y < n && x != y && paired(
                    pairs@.take(k as int),
                    x,
                    y as int,
                )),
        decreases pairs@.len() - k,
    {
        let (a, b) = pairs[k];
        let ghost before = out@;
        assert(pairs@[k as int].0 < n);
        if a != b {
            insert_ascending(&mut out[a], b);
            insert_ascending(&mut out[b], a);
        }
        proof {
            let now = pairs@.take(k + 1);
            let was = pairs@.take(k as int);
            assert forall|x: int, y: usize| 0 <= x < n implies (#[trigger] out@[x]@.contains(y)
                <==> y < n && x != y && paired(now, x, y as int)) by {
                assert(paired(now, x, y as int) <==> paired(was, x, y as int) || is_pair(
                    (a, b),
                    x,
                    y as int,
                )) by {
                    if paired(now, x, y as int) {
                        let l = choose|l: int|
                            0 <= l < now.len() && #[trigger] is_pair(now[l], x, y as int);
                        if l < k {
                            assert(is_pair(was[l], x, y as int));
                        }
                    }
                    if paired(was, x, y as int) {
                        let l = choose|l: int|
                            0 <= l < was.len() && #[trigger] is_pair(was[l], x, y as int);
                        assert(is_pair(now[l], x, y as int));
                    }
                    if is_pair((a, b), x, y as int) {
                        assert(is_pair(now[k as int], x, y as int));
                    }
                }
                assert(before[x]@.contains(y) <==> y < n && x != y && paired(was, x, y as int));
            }
        }
        k += 1;
    }
    proof {
        assert(pairs@.take(pairs@.len() as int) =~= pairs@);
        let rel = relation_of(out@);
        assert forall|x: int, y: int| #[trigger] rel(x, y) <==> 0 <= x < n && 0 <= y < n && x != y
            && paired(pairs@, x, y) by {
            if 0 <= x < n && 0 <= y < n {
                assert(out@[x]@.contains(y as usize) <==> (y as usize) < n && x != y as usize
                    && paired(pairs@, x, y));
            }
        }
        assert forall|x: int, y: int| #[trigger] rel(x, y) implies rel(y, x) && x != y by {
            assert(paired(pairs@, y, x)) by {
                let l = choose|l: int|
                    0 <= l < pairs@.len() && #[trigger] is_pair(pairs@[l], x, y);
                assert(is_pair(pairs@[l], y, x));
            }
            assert(rel(y, x));
        }
        assert forall|x: int, l: int| 0 <= x < n && 0 <= l < out@[x]@.len() implies
            #[trigger] out@[x]@[l] < n by {
            assert(out@[x]@.contains(out@[x]@[l]));
        }
    }
    out
}

/// Above this many nodes, shortest paths are followed from some of them only.
pub const BETWEENNESS_EXACT_MAX: usize = 4000;

/// From about how many of them.
pub const BETWEENNESS_PIVOTS: usize = 1500;

/// How far apart the nodes are from which shortest paths are followed.
pub open spec fn pivot_stride(n: int) -> int {
    if n <= BETWEENNESS_EXACT_MAX {
        1
    } else {
        (n + BETWEENNESS_PIVOTS - 1) / (BETWEENNESS_PIVOTS as int)
    }
}

/// The nodes from which shortest paths are followed to find how many of them run through
/// each node: all of them, or in a large graph every few, the same ones each time.
pub fn pivots(n: usize) -> (r: Vec<usize>)
    ensures
        forall|i: int| 0 <= i < r@.len() ==> #[trigger] r@[i] == i * pivot_stride(n as int),
        forall|v: int|
            0 <= v < n && v % pivot_stride(n as int) == 0 ==> r@.contains(#[trigger] (v as usize)),
        forall|i: int| 0 <= i < r@.len() ==> #[trigger] r@[i] < n,
{
    let stride: usize = if n <= BETWEENNESS_EXACT_MAX {
        1
    } else {
        n / BETWEENNESS_PIVOTS + if n % BETWEENNESS_PIVOTS == 0 {
            0
        } else {
            1
        }
    };
    assert(stride == pivot_stride(n as int));
    let mut out: Vec<usize> = Vec::new();
    if n == 0 {
        return out;
    }
    let mut at: usize = 0;
    out.push(0);
    assert(0 * stride == 0) by (nonlinear_arith);
    while n - at > stride
        invariant
            0 < stride,
            at < n,
            out@.len() > 0,
            at == (out@.len() - 1) * stride,
            forall|i: int| 0 <= i < out@.len() ==> #[trigger] out@[i] == i * stride && out@[i] < n,
        decreases n - at,
    {
        let ghost k = out@.len() as int;
        assert(k * stride == (k - 1) * stride + stride) by (nonlinear_arith);
        at = at + stride;
        out.push(at);
    }
    proof {
        let last = out@.len() - 1;
        assert forall|v: int| 0 <= v < n && v % (stride as int) == 0 implies out@.contains(
            #[trigger] (v as usize),
        ) by {
            let q = v / (stride as int);
            assert(v == q * stride) by (nonlinear_arith)
                requires
                    v % (stride as int) == 0,
                    q == v / (stride as int),
                    stride > 0,
            ;
            assert(0 <= q <= last) by (nonlinear_arith)
                requires
                    v == q * stride,
                    0 <= v,
                    v < n,
                    n <= last * stride + stride,
                    stride > 0,
            ;
            assert(out@[q] == q * stride);
        }
    }
    out
}

// ---------------------------------------------------------------------------
// Laws
// ---------------------------------------------------------------------------

/// Every node is joined to itself and to its neighbours. To be joined goes both ways and
/// goes on: what is joined to one of two nodes that are joined is joined to the other. A
/// node without neighbours is joined to no other.
pub proof fn law_what_is_joined_goes_on(n: int, rel: Relation, avoid: int, u: int, v: int, w: int)
    requires
        undirected(n, rel),
    ensures
        joined(n, rel, avoid, u, u) <==> 0 <= u < n && u != avoid,
        rel(u, v) && u != avoid && v != avoid ==> joined(n, rel, avoid, u, v),
        joined(n, rel, avoid, u, v) <==> joined(n, rel, avoid, v, u),
        joined(n, rel, avoid, u, v) && joined(n, rel, avoid, v, w) ==> joined(n, rel, avoid, u, w),
        joined(n, rel, avoid, u, v) && u != v ==> exists|m: int| #[trigger]
            rel(m, v) && m != avoid && joined(n, rel, avoid, u, m),
{
    if 0 <= u < n && u != avoid {
        assert(walk(n, rel, avoid, u, u, 0));
        if rel(u, v) && v != avoid {
            lemma_step(n, rel, avoid, u, u, v, 0);
            assert(walk(n, rel, avoid, u, v, 1));
        }
    }
    if joined(n, rel, avoid, u, u) {
        let k = choose|k: nat| #[trigger] walk(n, rel, avoid, u, u, k);
        lemma_ends(n, rel, avoid, u, u, k);
    }
    if joined(n, rel, avoid, u, v) {
        let k = choose|k: nat| #[trigger] walk(n, rel, avoid, u, v, k);
        lemma_joined_sym(n, rel, avoid, u, v, k);
        if joined(n, rel, avoid, v, w) {
            lemma_joined_trans(n, rel, avoid, u, v, w);
        }
        if u != v {
            let m = lemma_last_step(n, rel, avoid, u, v, k);
            lemma_ends(n, rel, avoid, u, m, (k - 1) as nat);
            assert(rel(m, v) && m != avoid && joined(n, rel, avoid, u, m));
        }
    }
    if joined(n, rel, avoid, v, u) {
        let k = choose|k: nat| #[trigger] walk(n, rel, avoid, v, u, k);
        lemma_joined_sym(n, rel, avoid, v, u, k);
    }
}

/// A node is no steps away from itself and from no other; neighbours are as far away as each
/// other, give or take one step.
pub proof fn law_distances_grow_step_by_step(
    n: int,
    rel: Relation,
    u: int,
    v: int,
    w: int,
    d: usize,
    e: usize,
)
    requires
        undirected(n, rel),
        0 <= u < n,
        rel(v, w),
        is_distance(n, rel, -1, u, v, d),
        is_distance(n, rel, -1, u, w, e),
    ensures
        d == 0 <==> u == v,
        d == usize::MAX <==> !joined(n, rel, -1, u, v),
        d < usize::MAX && e < usize::MAX ==> e <= d + 1 && d <= e + 1,
        d == usize::MAX <==> e == usize::MAX,
{
    assert(rel(w, v));
    assert(walk(n, rel, -1, u, u, 0));
    if d != usize::MAX {
        lemma_step(n, rel, -1, u, v, w, d as nat);
        assert(walk(n, rel, -1, u, w, (d + 1) as nat));
    }
    if e != usize::MAX {
        lemma_step(n, rel, -1, u, w, v, e as nat);
        assert(walk(n, rel, -1, u, v, (e + 1) as nat));
    }
    if u == v {
        assert(walk(n, rel, -1, u, v, 0));
        assert(joined(n, rel, -1, u, v));
    }
}

/// Where all neighbours of `v` are joined without it, a walk from elsewhere leads without it
/// to wherever it leads, and to a neighbour if it leads to `v`.
proof fn lemma_way_round(n: int, rel: Relation, v: int, u: int, w: int, k: nat)
    requires
        undirected(n, rel),
        u != v,
        walk(n, rel, -1, u, w, k),
        forall|a: int, b: int|
            #![trigger rel(v, a), rel(v, b)]
            rel(v, a) && rel(v, b) ==> joined(n, rel, v, a, b),
    ensures
        w != v ==> joined(n, rel, v, u, w),
        w == v ==> exists|a: int| #[trigger] rel(v, a) && joined(n, rel, v, u, a),
    decreases k,
{
    if k == 0 {
        assert(walk(n, rel, v, u, u, 0));
    } else {
        let m = lemma_last_step(n, rel, -1, u, w, k);
        lemma_way_round(n, rel, v, u, m, (k - 1) as nat);
        if m == v {
            let a = choose|a: int| #[trigger] rel(v, a) && joined(n, rel, v, u, a);
            assert(rel(v, w));
            assert(joined(n, rel, v, a, w));
            lemma_joined_trans(n, rel, v, u, a, w);
        } else if w == v {
            assert(rel(v, m));
        } else {
            let j = choose|j: nat| #[trigger] walk(n, rel, v, u, m, j);
            lemma_step(n, rel, v, u, m, w, j);
            assert(walk(n, rel, v, u, w, j + 1));
        }
    }
}

/// A node parts the graph exactly if it parts two of its neighbours: if they are not joined
/// once it is taken out.
pub proof fn law_an_articulation_point_parts_its_neighbours(n: int, rel: Relation, v: int)
    requires
        undirected(n, rel),
        0 <= v < n,
    ensures
        parts(n, rel, v) <==> exists|a: int, b: int|
            #![trigger rel(v, a), rel(v, b)]
            rel(v, a) && rel(v, b) && !joined(n, rel, v, a, b),
{
    if exists|a: int, b: int|
        #![trigger rel(v, a), rel(v, b)]
        rel(v, a) && rel(v, b) && !joined(n, rel, v, a, b) {
        let (a, b) = choose|a: int, b: int|
            #![trigger rel(v, a), rel(v, b)]
            rel(v, a) && rel(v, b) && !joined(n, rel, v, a, b);
        assert(rel(a, v));
        law_what_is_joined_goes_on(n, rel, -1, a, v, b);
        law_what_is_joined_goes_on(n, rel, -1, v, b, a);
        assert(joined(n, rel, -1, a, b));
    } else if parts(n, rel, v) {
        let (u, w) = choose|u: int, w: int|
            u != v && w != v && #[trigger] joined(n, rel, -1, u, w) && !joined(n, rel, v, u, w);
        let k = choose|k: nat| #[trigger] walk(n, rel, -1, u, w, k);
        lemma_way_round(n, rel, v, u, w, k);
    }
}

/// Shortest paths are followed from every node of a graph that is not large, and otherwise
/// from about as many as are meant: as few steps apart as keep them within that number.
pub proof fn law_a_large_graph_is_followed_from_some_nodes(n: int)
    requires
        n >= 0,
    ensures
        n <= 4000 ==> pivot_stride(n) == 1,
        n > 4000 ==> n <= 1500 * pivot_stride(n) < n + 1500,
{
}

} // verus!
