//! Shortest-path search over a directed weighted multigraph, given as a
//! flat list of edges.
//!
//! The search is Dijkstra's algorithm with a linear scan for the minimum
//! and ties broken by lowest node id, so its result is deterministic.  The
//! contract states full optimality: the returned walk's weight is the
//! least weight of any route between the endpoints, and nothing is
//! returned exactly when no route exists.

use vstd::prelude::*;

verus! {

/// A directed edge: source node, target node, weight.
pub type Edge = (usize, usize, u64);

/// No edge weight may exceed this, so that no sum of distances can
/// overflow.
pub const WEIGHT_MAX: u64 = 200_000_000_000_000_000;

/// The sentinel distance standing for "not reached".
pub const DIST_INF: u128 = 340_282_366_920_938_463_463_374_607_431_768_211_455;

/// Every edge endpoint lies below `n` and every weight below the cap.
pub open spec fn edges_wf(edges: Seq<Edge>, n: int) -> bool {
    forall|k: int|
        0 <= k < edges.len() ==> (#[trigger] edges[k]).0 < n && edges[k].1 < n && edges[k].2
            <= WEIGHT_MAX
}

/// `r` is a route from `s` to `t`: a chain of indices into `edges` whose
/// sources and targets link up.  The empty route runs from a node to
/// itself.
pub open spec fn route_ok(edges: Seq<Edge>, r: Seq<int>, s: int, t: int) -> bool {
    &&& forall|k: int| 0 <= k < r.len() ==> 0 <= #[trigger] r[k] < edges.len()
    &&& if r.len() == 0 {
        s == t
    } else {
        &&& edges[r[0]].0 == s
        &&& edges[r[r.len() - 1]].1 == t
        &&& forall|k: int| 0 <= k < r.len() - 1 ==> edges[#[trigger] r[k]].1 == edges[r[k + 1]].0
    }
}

/// The total weight of a route.
pub open spec fn route_weight(edges: Seq<Edge>, r: Seq<int>) -> int
    decreases r.len(),
{
    if r.len() == 0 {
        0
    } else {
        edges[r[0]].2 + route_weight(edges, r.subrange(1, r.len() as int))
    }
}

/// The chain of nodes a route passes through, starting at `s`.
pub open spec fn route_nodes(edges: Seq<Edge>, r: Seq<int>, s: int) -> Seq<int> {
    seq![s] + Seq::new(r.len(), |k: int| edges[r[k]].1 as int)
}

/// Each step of a route's node chain runs along one of its edges.
pub proof fn lemma_route_nodes_adjacent(edges: Seq<Edge>, r: Seq<int>, s: int)
    requires
        forall|k: int| 0 <= k < r.len() ==> 0 <= #[trigger] r[k] < edges.len(),
        r.len() > 0 ==> edges[r[0]].0 == s,
        forall|k: int| 0 <= k < r.len() - 1 ==> edges[#[trigger] r[k]].1 == edges[r[k + 1]].0,
    ensures
        forall|k: int|
            0 <= k < r.len() ==> edges[#[trigger] r[k]].0 == route_nodes(edges, r, s)[k] && edges[
                r[k]
            ].1 == route_nodes(edges, r, s)[k + 1],
{
    let nodes = route_nodes(edges, r, s);
    assert forall|k: int| 0 <= k < r.len() implies edges[#[trigger] r[k]].0 == nodes[k] && edges[
        r[k]
    ].1 == nodes[k + 1] by {
        assert(nodes[k + 1] == edges[r[k]].1);
        if k == 0 {
            assert(nodes[0] == s);
        } else {
            assert(nodes[k] == edges[r[k - 1]].1);
            assert(edges[r[k - 1]].1 == edges[r[k]].0);
        }
    }
}

/// Route weights are sums of non-negative weights.
pub proof fn lemma_route_weight_nonneg(edges: Seq<Edge>, r: Seq<int>)
    requires
        forall|k: int| 0 <= k < r.len() ==> 0 <= #[trigger] r[k] < edges.len(),
    ensures
        route_weight(edges, r) >= 0,
    decreases r.len(),
{
    if r.len() > 0 {
        let rest = r.subrange(1, r.len() as int);
        assert(forall|k: int| 0 <= k < rest.len() ==> #[trigger] rest[k] == r[k + 1]);
        lemma_route_weight_nonneg(edges, rest);
    }
}

/// Extending a route by one more edge adds that edge's weight.
pub proof fn lemma_route_weight_push(edges: Seq<Edge>, r: Seq<int>, k: int)
    ensures
        route_weight(edges, r.push(k)) == route_weight(edges, r) + edges[k].2,
    decreases r.len(),
{
    if r.len() == 0 {
        assert(r.push(k) =~= seq![k]);
        assert(r.push(k).subrange(1, 1) =~= Seq::<int>::empty());
        assert(route_weight(edges, Seq::<int>::empty()) == 0);
    } else {
        let rest = r.subrange(1, r.len() as int);
        lemma_route_weight_push(edges, rest, k);
        assert(r.push(k).subrange(1, r.push(k).len() as int) =~= rest.push(k));
        assert(r.push(k)[0] == r[0]);
    }
}

/// Chaining an edge onto the front of a route keeps it a route.
pub proof fn lemma_route_ok_front(edges: Seq<Edge>, r: Seq<int>, k: int, t: int)
    requires
        route_ok(edges, r, edges[k].1 as int, t),
        0 <= k < edges.len(),
    ensures
        route_ok(edges, seq![k] + r, edges[k].0 as int, t),
        route_weight(edges, seq![k] + r) == edges[k].2 + route_weight(edges, r),
{
    let r2 = seq![k] + r;
    assert(r2[0] == k);
    assert(forall|j: int| 0 <= j < r.len() ==> r2[j + 1] == #[trigger] r[j]);
    assert(r2.subrange(1, r2.len() as int) =~= r);
}

/// A route's weight splits at any position.
pub proof fn lemma_route_weight_split(edges: Seq<Edge>, r: Seq<int>, j: int)
    requires
        0 <= j <= r.len(),
    ensures
        route_weight(edges, r) == route_weight(edges, r.subrange(0, j)) + route_weight(
            edges,
            r.subrange(j, r.len() as int),
        ),
    decreases j,
{
    if j == 0 {
        assert(r.subrange(0, 0) =~= Seq::<int>::empty());
        assert(route_weight(edges, Seq::<int>::empty()) == 0);
        assert(r.subrange(0, r.len() as int) =~= r);
    } else {
        lemma_route_weight_split(edges, r, j - 1);
        let tail = r.subrange(j - 1, r.len() as int);
        assert(tail[0] == r[j - 1]);
        assert(tail.subrange(1, tail.len() as int) =~= r.subrange(j, r.len() as int));
        assert(route_weight(edges, tail) == edges[r[j - 1]].2 + route_weight(
            edges,
            r.subrange(j, r.len() as int),
        ));
        assert(r.subrange(0, j) =~= r.subrange(0, j - 1).push(r[j - 1]));
        lemma_route_weight_push(edges, r.subrange(0, j - 1), r[j - 1]);
    }
}

/// A non-empty prefix of a route is a route to the prefix's last target.
pub proof fn lemma_route_ok_prefix(edges: Seq<Edge>, r: Seq<int>, s: int, t: int, j: int)
    requires
        route_ok(edges, r, s, t),
        0 < j <= r.len(),
    ensures
        route_ok(edges, r.subrange(0, j), s, edges[r[j - 1]].1 as int),
{
    let pre = r.subrange(0, j);
    assert(forall|k: int| 0 <= k < pre.len() ==> pre[k] == #[trigger] r[k]);
}

/// How many entries of a boolean sequence are set.
pub open spec fn count_true(s: Seq<bool>) -> int
    decreases s.len(),
{
    if s.len() == 0 {
        0
    } else {
        (if s[0] {
            1int
        } else {
            0int
        }) + count_true(s.subrange(1, s.len() as int))
    }
}

/// Setting an unset entry raises the count by one; the count never exceeds
/// the length.
pub proof fn lemma_count_true_update(s: Seq<bool>, i: int)
    requires
        0 <= i < s.len(),
        !s[i],
    ensures
        count_true(s.update(i, true)) == count_true(s) + 1,
    decreases s.len(),
{
    let s2 = s.update(i, true);
    if i == 0 {
        assert(s2.subrange(1, s2.len() as int) =~= s.subrange(1, s.len() as int));
    } else {
        assert(s2.subrange(1, s2.len() as int) =~= s.subrange(1, s.len() as int).update(
            i - 1,
            true,
        ));
        lemma_count_true_update(s.subrange(1, s.len() as int), i - 1);
    }
}

/// The count of set entries never exceeds the length.
pub proof fn lemma_count_true_le(s: Seq<bool>)
    ensures
        0 <= count_true(s) <= s.len(),
    decreases s.len(),
{
    if s.len() > 0 {
        lemma_count_true_le(s.subrange(1, s.len() as int));
    }
}

/// While some entry is unset, the count is below the length.
pub proof fn lemma_count_true_lt(s: Seq<bool>, i: int)
    requires
        0 <= i < s.len(),
        !s[i],
    ensures
        count_true(s) < s.len(),
    decreases s.len(),
{
    if i == 0 {
        lemma_count_true_le(s.subrange(1, s.len() as int));
    } else {
        lemma_count_true_lt(s.subrange(1, s.len() as int), i - 1);
    }
}

/// Every edge of the route starts at a settled node.
pub open spec fn s_route(edges: Seq<Edge>, r: Seq<int>, visited: Seq<bool>) -> bool {
    forall|k: int| 0 <= k < r.len() ==> visited[edges[#[trigger] r[k]].0 as int]
}

/// The search state invariant: what holds of the distance, settled,
/// queued and predecessor arrays between iterations of the main loop.
pub open spec fn st_wf(
    n: int,
    edges: Seq<Edge>,
    dist: Seq<u128>,
    visited: Seq<bool>,
    inq: Seq<bool>,
    prev: Seq<usize>,
    rankm: Map<int, int>,
    scount: int,
    start: int,
) -> bool {
    &&& dist.len() == n
    &&& visited.len() == n
    &&& inq.len() == n
    &&& prev.len() == n
    &&& 0 <= start < n
    &&& 0 <= scount <= n
    &&& scount == count_true(visited)
    &&& dist[start] == 0
    &&& (scount > 0 ==> visited[start])
    &&& (forall|v: int| 0 <= v < n ==> !(visited[v] && inq[v]))
    &&& (forall|v: int| 0 <= v < n && (visited[v] || inq[v]) ==> dist[v] < DIST_INF)
    &&& (forall|v: int| 0 <= v < n && dist[v] < DIST_INF ==> (visited[v] || inq[v]))
    &&& (forall|v: int|
        0 <= v < n && dist[v] < DIST_INF ==> dist[v] <= scount * (WEIGHT_MAX as int))
    &&& (forall|v: int|
        0 <= v < n && #[trigger] visited[v] ==> rankm.contains_key(v) && 0 <= rankm[v] < scount)
    &&& (forall|v: int|
        0 <= v < n && dist[v] < DIST_INF && v != start ==> {
            let k = #[trigger] prev[v] as int;
            &&& 0 <= k < edges.len()
            &&& edges[k].1 == v
            &&& visited[edges[k].0 as int]
            &&& dist[edges[k].0 as int] < DIST_INF
            &&& dist[edges[k].0 as int] + edges[k].2 == dist[v]
            &&& rankm[edges[k].0 as int] < (if visited[v] {
                rankm[v]
            } else {
                n
            })
        })
    &&& (forall|k: int|
        0 <= k < edges.len() && visited[(#[trigger] edges[k]).0 as int] ==> dist[edges[k].1 as int]
            <= dist[edges[k].0 as int] + edges[k].2)
    &&& (forall|x: int, y: int|
        0 <= x < n && 0 <= y < n && #[trigger] visited[x] && #[trigger] inq[y] ==> dist[x]
            <= dist[y])
    &&& (forall|v: int, r: Seq<int>|
        0 <= v < n && visited[v] && #[trigger] route_ok(edges, r, start, v) ==> route_weight(
            edges,
            r,
        ) >= dist[v])
    &&& (forall|v: int, r: Seq<int>|
        0 <= v < n && !visited[v] && #[trigger] route_ok(edges, r, start, v) && s_route(
            edges,
            r,
            visited,
        ) ==> route_weight(edges, r) >= dist[v])
}

/// In a settled-source route to an unsettled node there is a first edge
/// whose target is unsettled, and the route up to it is no heavier than
/// the whole.
proof fn lemma_first_exit(
    edges: Seq<Edge>,
    visited: Seq<bool>,
    r: Seq<int>,
    s: int,
    v: int,
    j: int,
)
    requires
        route_ok(edges, r, s, v),
        0 <= v < visited.len(),
        !visited[v],
        forall|e: int| 0 <= e < edges.len() ==> 0 <= (#[trigger] edges[e]).1 < visited.len(),
        0 <= j < r.len(),
        forall|k: int| 0 <= k < j ==> visited[edges[#[trigger] r[k]].1 as int],
        visited[s],
    ensures
        exists|jj: int|
            {
                &&& 0 <= jj < r.len()
                &&& !visited[edges[r[jj]].1 as int]
                &&& s_route(edges, #[trigger] r.subrange(0, jj + 1), visited)
                &&& route_ok(edges, r.subrange(0, jj + 1), s, edges[r[jj]].1 as int)
                &&& route_weight(edges, r) >= route_weight(edges, r.subrange(0, jj + 1))
            },
    decreases r.len() - j,
{
    if !visited[edges[r[j]].1 as int] {
        let pre = r.subrange(0, j + 1);
        lemma_route_ok_prefix(edges, r, s, v, j + 1);
        assert(forall|k: int| 0 <= k < pre.len() ==> pre[k] == #[trigger] r[k]);
        assert forall|k: int| 0 <= k < pre.len() implies visited[edges[#[trigger] pre[k]].0 as int] by {
            if k == 0 {
                assert(edges[r[0]].0 == s);
            } else {
                assert(edges[r[k - 1]].1 == edges[r[k]].0);
                assert(visited[edges[r[k - 1]].1 as int]);
            }
        }
        lemma_route_weight_split(edges, r, j + 1);
        lemma_route_weight_nonneg(edges, r.subrange(j + 1, r.len() as int));
        assert(route_weight(edges, r) >= route_weight(edges, pre));
        assert(0 <= j < r.len() && !visited[edges[r[j]].1 as int] && s_route(
            edges,
            r.subrange(0, j + 1),
            visited,
        ) && route_ok(edges, r.subrange(0, j + 1), s, edges[r[j]].1 as int) && route_weight(
            edges,
            r,
        ) >= route_weight(edges, r.subrange(0, j + 1)));
    } else {
        if j == r.len() - 1 {
            assert(edges[r[j]].1 == v);
            assert(false);
        } else {
            lemma_first_exit(edges, visited, r, s, v, j + 1);
        }
    }
}

/// With the queue empty, every node a route can reach has been given a
/// finite distance.
proof fn lemma_no_route(
    n: int,
    edges: Seq<Edge>,
    dist: Seq<u128>,
    visited: Seq<bool>,
    start: int,
    v: int,
    r: Seq<int>,
)
    requires
        dist.len() == n,
        visited.len() == n,
        edges_wf(edges, n),
        0 <= start < n,
        dist[start] == 0,
        forall|y: int| 0 <= y < n && #[trigger] dist[y] < DIST_INF ==> visited[y],
        forall|k: int|
            0 <= k < edges.len() && visited[(#[trigger] edges[k]).0 as int] ==> dist[edges[k].1 as int]
                <= dist[edges[k].0 as int] + edges[k].2,
        forall|y: int|
            0 <= y < n && #[trigger] dist[y] < DIST_INF ==> dist[y] + WEIGHT_MAX < DIST_INF,
        route_ok(edges, r, start, v),
        0 <= v < n,
    ensures
        dist[v] < DIST_INF,
    decreases r.len(),
{
    if r.len() == 0 {
        assert(v == start);
    } else {
        let k = r[r.len() - 1];
        let x = edges[k].0 as int;
        let pre = r.subrange(0, r.len() - 1);
        if r.len() == 1 {
            assert(x == start);
            assert(route_ok(edges, pre, start, x)) by {
                assert(pre =~= Seq::<int>::empty());
            }
        } else {
            lemma_route_ok_prefix(edges, r, start, v, r.len() - 1);
            assert(edges[r[r.len() - 2]].1 == edges[r[r.len() - 1]].0);
        }
        lemma_no_route(n, edges, dist, visited, start, x, pre);
        assert(visited[x]);
        assert(dist[edges[k].1 as int] <= dist[x] + edges[k].2);
    }
}

/// Any route from the start to a node about to be settled weighs at least
/// that node's tentative distance.
proof fn lemma_extraction(
    n: int,
    edges: Seq<Edge>,
    dist: Seq<u128>,
    visited: Seq<bool>,
    inq: Seq<bool>,
    prev: Seq<usize>,
    rankm: Map<int, int>,
    scount: int,
    start: int,
    u: int,
    r: Seq<int>,
)
    requires
        st_wf(n, edges, dist, visited, inq, prev, rankm, scount, start),
        edges_wf(edges, n),
        0 <= u < n,
        inq[u],
        forall|y: int| 0 <= y < n && #[trigger] inq[y] ==> dist[u] <= dist[y],
        route_ok(edges, r, start, u),
    ensures
        route_weight(edges, r) >= dist[u],
{
    if u == start {
        lemma_route_weight_nonneg(edges, r);
    } else {
        if r.len() == 0 {
            assert(false);
        } else {
            assert(visited[start]) by {
                if scount == 0 {
                    assert(dist[u] < DIST_INF);
                    assert(dist[u] <= 0);
                    assert(u != start && dist[u] < DIST_INF);
                    let k = prev[u] as int;
                    assert(visited[edges[k].0 as int]);
                    assert(rankm.contains_key(edges[k].0 as int) && rankm[edges[k].0 as int]
                        < scount);
                }
            }
            lemma_first_exit(edges, visited, r, start, u, 0);
            let jj = choose|jj: int|
                {
                    &&& 0 <= jj < r.len()
                    &&& !visited[edges[r[jj]].1 as int]
                    &&& s_route(edges, #[trigger] r.subrange(0, jj + 1), visited)
                    &&& route_ok(edges, r.subrange(0, jj + 1), start, edges[r[jj]].1 as int)
                    &&& route_weight(edges, r) >= route_weight(edges, r.subrange(0, jj + 1))
                };
            let y = edges[r[jj]].1 as int;
            let pre = r.subrange(0, jj + 1);
            assert(route_weight(edges, pre) >= dist[y]);
            assert(dist[y] < DIST_INF ==> inq[y]) by {
                assert(dist[y] < DIST_INF ==> (visited[y] || inq[y]));
            }
            assert(dist[y] >= dist[u] || dist[y] == DIST_INF) by {
                if dist[y] < DIST_INF {
                    assert(inq[y]);
                }
            }
            if dist[y] == DIST_INF {
                assert(route_weight(edges, pre) >= DIST_INF);
                assert(dist[u] < DIST_INF);
            }
        }
    }
}

/// All-unset sequences count zero.
proof fn lemma_count_true_zero(s: Seq<bool>)
    requires
        forall|i: int| 0 <= i < s.len() ==> !s[i],
    ensures
        count_true(s) == 0,
    decreases s.len(),
{
    if s.len() > 0 {
        let rest = s.subrange(1, s.len() as int);
        assert(forall|i: int| 0 <= i < rest.len() ==> rest[i] == s[i + 1]);
        lemma_count_true_zero(rest);
    }
}

/// The settle order of a node, used to show that predecessor chains end:
/// an unsettled node ranks after every settled one.
pub open spec fn rank_of(rankm: Map<int, int>, visited: Seq<bool>, v: int, n: int) -> int {
    if 0 <= v < visited.len() && visited[v] {
        rankm[v]
    } else {
        n
    }
}

/// Dijkstra's search from `start` to `end` over `n` nodes.  The result is
/// the chain of nodes of a least-weight route together with that weight;
/// nothing is returned exactly when no route exists.  The frontier is
/// scanned linearly and ties break toward the lowest node id, so the
/// result is deterministic.
pub fn dijkstra(n: usize, edges: &Vec<Edge>, start: usize, end: usize) -> (res: Option<
    (Vec<usize>, u128),
>)
    requires
        start < n,
        end < n,
        edges_wf(edges@, n as int),
    ensures
        res matches Some(pr) ==> {
            &&& pr.1 < DIST_INF
            &&& exists|r: Seq<int>|
                route_ok(edges@, r, start as int, end as int) && route_weight(edges@, r) == pr.1
                    && pr.0@.map_values(|x: usize| x as int) == #[trigger] route_nodes(
                    edges@,
                    r,
                    start as int,
                )
            &&& forall|r: Seq<int>|
                route_ok(edges@, r, start as int, end as int) ==> route_weight(edges@, r) >= pr.1
            &&& pr.0@.len() >= 1
            &&& pr.0@[0] == start
            &&& pr.0@.last() == end
            &&& forall|j: int| 0 <= j < pr.0@.len() ==> (#[trigger] pr.0@[j]) < n
        },
        res is None ==> forall|r: Seq<int>| !route_ok(edges@, r, start as int, end as int),
{
    let m = edges.len();
    let mut dist: Vec<u128> = Vec::new();
    let mut visited: Vec<bool> = Vec::new();
    let mut inq: Vec<bool> = Vec::new();
    let mut prev: Vec<usize> = Vec::new();
    let mut i: usize = 0;
    while i < n
        invariant
            dist@.len() == i,
            visited@.len() == i,
            inq@.len() == i,
            prev@.len() == i,
            i <= n,
            forall|v: int| 0 <= v < i ==> #[trigger] dist@[v] == DIST_INF,
            forall|v: int| 0 <= v < i ==> !#[trigger] visited@[v],
            forall|v: int| 0 <= v < i ==> !#[trigger] inq@[v],
        decreases n - i,
    {
        dist.push(DIST_INF);
        visited.push(false);
        inq.push(false);
        prev.push(0);
        i = i + 1;
    }
    dist.set(start, 0);
    inq.set(start, true);
    let ghost mut rankm: Map<int, int> = Map::empty();
    let mut scount: usize = 0;
    proof {
        lemma_count_true_zero(visited@);
        assert forall|v: int, r: Seq<int>|
            0 <= v < n && !visited@[v] && #[trigger] route_ok(edges@, r, start as int, v)
                && s_route(edges@, r, visited@) implies route_weight(edges@, r) >= dist@[v] by {
            if r.len() == 0 {
                assert(v == start);
            } else {
                assert(visited@[edges@[r[0]].0 as int]);
                assert(!visited@[edges@[r[0]].0 as int]);
                assert(false);
            }
        }
        assert(st_wf(
            n as int,
            edges@,
            dist@,
            visited@,
            inq@,
            prev@,
            rankm,
            scount as int,
            start as int,
        ));
    }
    loop
        invariant
            st_wf(
                n as int,
                edges@,
                dist@,
                visited@,
                inq@,
                prev@,
                rankm,
                scount as int,
                start as int,
            ),
            edges_wf(edges@, n as int),
            start < n,
            end < n,
            m == edges@.len(),
            m == edges.len(),
            !visited@[end as int],
        ensures
            st_wf(
                n as int,
                edges@,
                dist@,
                visited@,
                inq@,
                prev@,
                rankm,
                scount as int,
                start as int,
            ),
            dist@[end as int] < DIST_INF ==> forall|r: Seq<int>|
                route_ok(edges@, r, start as int, end as int) ==> route_weight(edges@, r)
                    >= dist@[end as int],
            dist@[end as int] == DIST_INF ==> forall|y: int| 0 <= y < n ==> !inq@[y],
        decreases n - scount,
    {
        let mut best: u128 = DIST_INF;
        let mut u: usize = 0;
        let mut found = false;
        let mut v: usize = 0;
        while v < n
            invariant
                v <= n,
                n == dist@.len(),
                n == inq@.len(),
                forall|y: int| 0 <= y < n && #[trigger] inq@[y] ==> dist@[y] < DIST_INF,
                found ==> u < n && inq@[u as int] && dist@[u as int] == best && best < DIST_INF,
                !found ==> best == DIST_INF,
                forall|y: int| 0 <= y < v && #[trigger] inq@[y] ==> dist@[y] >= best,
                !found ==> forall|y: int| 0 <= y < v ==> !#[trigger] inq@[y],
            decreases n - v,
        {
            if inq[v] && dist[v] < best {
                best = dist[v];
                u = v;
                found = true;
            }
            v = v + 1;
        }
        if !found {
            proof {
                if dist@[end as int] < DIST_INF {
                    assert(visited@[end as int] || inq@[end as int]);
                    assert(visited@[end as int]);
                    assert forall|r: Seq<int>|
                        route_ok(edges@, r, start as int, end as int) implies route_weight(
                        edges@,
                        r,
                    ) >= dist@[end as int] by {
                        assert(route_ok(edges@, r, start as int, end as int));
                    }
                }
            }
            break;
        }
        if u == end {
            proof {
                assert forall|r: Seq<int>|
                    route_ok(edges@, r, start as int, end as int) implies route_weight(edges@, r)
                    >= dist@[end as int] by {
                    lemma_extraction(
                        n as int,
                        edges@,
                        dist@,
                        visited@,
                        inq@,
                        prev@,
                        rankm,
                        scount as int,
                        start as int,
                        end as int,
                        r,
                    );
                }
            }
            break;
        }
        proof {
            assert forall|r: Seq<int>|
                route_ok(edges@, r, start as int, u as int) implies route_weight(edges@, r)
                >= dist@[u as int] by {
                lemma_extraction(
                    n as int,
                    edges@,
                    dist@,
                    visited@,
                    inq@,
                    prev@,
                    rankm,
                    scount as int,
                    start as int,
                    u as int,
                    r,
                );
            }
            assert(!visited@[u as int]);
            lemma_count_true_lt(visited@, u as int);
        }
        let ghost visited0 = visited@;
        let ghost scount0 = scount as int;
        let ghost rankm0 = rankm;
        let ghost inq0 = inq@;
        let ghost dist_pre = dist@;
        let ghost prev_pre = prev@;
        proof {
            assert(st_wf(
                n as int,
                edges@,
                dist_pre,
                visited0,
                inq0,
                prev_pre,
                rankm0,
                scount0,
                start as int,
            ));
        }
        proof {
            if scount0 == 0 && u != start {
                assert(dist@[u as int] < DIST_INF);
                let pk = prev@[u as int] as int;
                assert(visited@[edges@[pk].0 as int]);
                assert(rankm.contains_key(edges@[pk].0 as int) && 0 <= rankm[edges@[pk].0 as int]
                    < scount0);
                assert(false);
            }
        }
        inq.set(u, false);
        visited.set(u, true);
        proof {
            lemma_count_true_update(visited0, u as int);
            rankm = rankm.insert(u as int, scount as int);
        }
        scount = scount + 1;
        let ghost d0 = dist@;
        proof {
            assert forall|y: int| 0 <= y < n && visited@[y] implies rankm.contains_key(y) && 0
                <= rankm[y] < scount by {
                if y == u as int {
                    assert(rankm[y] == scount0);
                } else {
                    assert(visited0[y]);
                    assert(st_wf(
                        n as int,
                        edges@,
                        dist_pre,
                        visited0,
                        inq0,
                        prev_pre,
                        rankm0,
                        scount0,
                        start as int,
                    ));
                    assert(rankm0.contains_key(y) && 0 <= rankm0[y] < scount0);
                    assert(rankm[y] == rankm0[y]);
                }
            }
        }
        let mut k: usize = 0;
        while k < m
            invariant
                k <= m,
                m == edges@.len(),
                m == edges.len(),
                edges_wf(edges@, n as int),
                start < n,
                end < n,
                u < n,
                u != end,
                d0.len() == n,
                dist@.len() == n,
                visited@.len() == n,
                inq@.len() == n,
                prev@.len() == n,
                visited@[u as int],
                !visited@[end as int],
                scount == scount0 + 1,
                scount <= n,
                scount == count_true(visited@),
                dist@[start as int] == 0,
                visited@[start as int] || u == start,
                dist@[u as int] == d0[u as int],
                d0[u as int] <= scount0 * (WEIGHT_MAX as int),
                forall|y: int| 0 <= y < n && #[trigger] visited@[y] ==> dist@[y] < DIST_INF
                    && dist@[y] == d0[y],
                forall|y: int| 0 <= y < n ==> !(visited@[y] && inq@[y]),
                forall|y: int| 0 <= y < n && #[trigger] inq@[y] ==> dist@[y] < DIST_INF,
                forall|y: int| 0 <= y < n && dist@[y] < DIST_INF ==> (visited@[y] || inq@[y]),
                forall|y: int|
                    0 <= y < n && dist@[y] < DIST_INF ==> dist@[y] <= scount * (
                    WEIGHT_MAX as int),
                forall|y: int|
                    0 <= y < n && visited@[y] ==> rankm.contains_key(y) && 0 <= #[trigger] rankm[y]
                        < scount,
                forall|y: int|
                    0 <= y < n && dist@[y] < DIST_INF && y != start ==> {
                        let pk = #[trigger] prev@[y] as int;
                        &&& 0 <= pk < edges@.len()
                        &&& edges@[pk].1 == y
                        &&& visited@[edges@[pk].0 as int]
                        &&& dist@[edges@[pk].0 as int] < DIST_INF
                        &&& dist@[edges@[pk].0 as int] + edges@[pk].2 == dist@[y]
                        &&& rankm[edges@[pk].0 as int] < (if visited@[y] {
                            rankm[y]
                        } else {
                            n as int
                        })
                    },
                forall|j: int|
                    0 <= j < edges@.len() && visited@[(#[trigger] edges@[j]).0 as int] && (edges@[j].0
                        != u || j < k) ==> dist@[edges@[j].1 as int] <= dist@[edges@[j].0 as int]
                        + edges@[j].2,
                forall|x: int, y: int|
                    0 <= x < n && 0 <= y < n && #[trigger] visited@[x] && #[trigger] inq@[y]
                        ==> dist@[x] <= dist@[y],
                forall|x: int| 0 <= x < n && #[trigger] visited@[x] ==> dist@[x] <= d0[u as int],
                forall|y: int, r: Seq<int>|
                    0 <= y < n && visited@[y] && #[trigger] route_ok(edges@, r, start as int, y)
                        ==> route_weight(edges@, r) >= dist@[y],
            decreases m - k,
        {
            let e = edges[k];
            if e.0 == u {
                let w: u64 = e.2;
                proof {
                    assert((scount0 + 1) * (WEIGHT_MAX as int) == scount0 * (WEIGHT_MAX as int)
                        + WEIGHT_MAX) by (nonlinear_arith);
                }
                let tnew: u128 = dist[u] + (w as u128);
                let y = e.1;
                if tnew < dist[y] {
                    proof {
                        assert(!visited@[y as int]);
                        assert(y != start);
                    }
                    dist.set(y, tnew);
                    prev.set(y, k);
                }
                if !visited[y] {
                    inq.set(y, true);
                }
            }
            k = k + 1;
        }
        proof {
            assert forall|y: int, r: Seq<int>|
                0 <= y < n && !visited@[y] && #[trigger] route_ok(edges@, r, start as int, y)
                    && s_route(edges@, r, visited@) implies route_weight(edges@, r) >= dist@[y] by {
                if r.len() == 0 {
                    assert(y == start);
                } else {
                    let kk = r[r.len() - 1];
                    let x = edges@[kk].0 as int;
                    let pre = r.subrange(0, r.len() - 1);
                    if r.len() == 1 {
                        assert(x == start);
                        assert(pre =~= Seq::<int>::empty());
                    } else {
                        lemma_route_ok_prefix(edges@, r, start as int, y, r.len() - 1);
                    }
                    assert(visited@[x]);
                    assert(route_ok(edges@, pre, start as int, x));
                    assert(r =~= pre.push(kk));
                    lemma_route_weight_push(edges@, pre, kk);
                    assert(route_weight(edges@, pre) >= dist@[x]);
                    assert(dist@[edges@[kk].1 as int] <= dist@[x] + edges@[kk].2);
                }
            }
            assert(st_wf(
                n as int,
                edges@,
                dist@,
                visited@,
                inq@,
                prev@,
                rankm,
                scount as int,
                start as int,
            ));
        }
    }
    if dist[end] == DIST_INF {
        proof {
            assert forall|r: Seq<int>| !route_ok(edges@, r, start as int, end as int) by {
                if route_ok(edges@, r, start as int, end as int) {
                    assert forall|y: int| 0 <= y < n && #[trigger] dist@[y] < DIST_INF implies dist@[y]
                        + WEIGHT_MAX < DIST_INF by {
                        assert(dist@[y] <= scount * (WEIGHT_MAX as int));
                        assert(scount * (WEIGHT_MAX as int) + WEIGHT_MAX <= (n as int + 1) * (
                        WEIGHT_MAX as int) < DIST_INF) by (nonlinear_arith)
                            requires
                                0 <= scount <= n <= 18_446_744_073_709_551_615u64 as int,
                        ;
                    }
                    assert forall|y: int| 0 <= y < n && #[trigger] dist@[y] < DIST_INF implies visited@[y] by {
                        assert(visited@[y] || inq@[y]);
                    }
                    lemma_no_route(
                        n as int,
                        edges@,
                        dist@,
                        visited@,
                        start as int,
                        end as int,
                        r,
                    );
                }
            }
        }
        return None;
    }
    let total: u128 = dist[end];
    let mut ids_rev: Vec<usize> = Vec::new();
    ids_rev.push(end);
    let ghost mut rt: Seq<int> = Seq::empty();
    let mut cur: usize = end;
    proof {
        assert(route_ok(edges@, rt, end as int, end as int));
        assert(route_weight(edges@, rt) == 0);
        assert(route_nodes(edges@, rt, end as int) =~= seq![end as int]);
        assert(ids_rev@.map_values(|x: usize| x as int) =~= route_nodes(
            edges@,
            rt,
            end as int,
        ).reverse());
    }
    while cur != start
        invariant
            st_wf(
                n as int,
                edges@,
                dist@,
                visited@,
                inq@,
                prev@,
                rankm,
                scount as int,
                start as int,
            ),
            edges_wf(edges@, n as int),
            start < n,
            end < n,
            cur < n,
            dist@[cur as int] < DIST_INF,
            route_ok(edges@, rt, cur as int, end as int),
            route_weight(edges@, rt) == dist@[end as int] - dist@[cur as int],
            ids_rev@.map_values(|x: usize| x as int) == route_nodes(
                edges@,
                rt,
                cur as int,
            ).reverse(),
            ids_rev@.len() >= 1,
            ids_rev@[0] == end,
            ids_rev@.last() == cur,
            forall|j: int| 0 <= j < ids_rev@.len() ==> (#[trigger] ids_rev@[j]) < n,
        decreases rank_of(rankm, visited@, cur as int, n as int),
    {
        let k = prev[cur];
        proof {
            assert(dist@[cur as int] < DIST_INF && cur != start);
        }
        let src = edges[k].0;
        proof {
            lemma_route_ok_front(edges@, rt, k as int, end as int);
            let rt2 = seq![k as int] + rt;
            assert(route_nodes(edges@, rt2, src as int) =~= seq![src as int] + route_nodes(
                edges@,
                rt,
                cur as int,
            ));
            assert(route_nodes(edges@, rt2, src as int).reverse() =~= route_nodes(
                edges@,
                rt,
                cur as int,
            ).reverse().push(src as int));
            assert(ids_rev@.push(src).map_values(|x: usize| x as int) =~= ids_rev@.map_values(
                |x: usize| x as int,
            ).push(src as int));
        }
        proof {
            rt = seq![k as int] + rt;
        }
        ids_rev.push(src);
        cur = src;
    }
    let mut ids: Vec<usize> = Vec::new();
    let nr = ids_rev.len();
    let mut j: usize = nr;
    while j > 0
        invariant
            j <= nr,
            nr == ids_rev@.len(),
            ids@.len() == nr - j,
            forall|t: int|
                0 <= t < ids@.len() ==> #[trigger] ids@[t] == ids_rev@[nr - 1 - t],
        decreases j,
    {
        j = j - 1;
        let x = ids_rev[j];
        ids.push(x);
    }
    proof {
        let nodes = route_nodes(edges@, rt, start as int);
        assert(ids@.map_values(|x: usize| x as int) =~= nodes) by {
            assert(ids_rev@.map_values(|x: usize| x as int) == nodes.reverse());
            assert(ids@.len() == nodes.len());
            assert forall|t: int| 0 <= t < ids@.len() implies ids@.map_values(|x: usize| x as int)[t]
                == nodes[t] by {
                assert(ids@[t] == ids_rev@[nr - 1 - t]);
                assert(ids_rev@.map_values(|x: usize| x as int)[nr - 1 - t] == nodes.reverse()[nr
                    - 1 - t]);
                assert(nodes.reverse()[nr - 1 - t] == nodes[t]);
            }
        }
        assert(route_ok(edges@, rt, start as int, end as int) && route_weight(edges@, rt)
            == total);
        assert(ids@[0] == start) by {
            assert(nodes[0] == start);
        }
        assert(ids@.last() == end) by {
            assert(ids@[ids@.len() - 1] as int == nodes[nodes.len() - 1]);
            assert(ids_rev@[0] == end);
            assert(ids@[ids@.len() - 1] == ids_rev@[0]);
        }
        assert forall|t: int| 0 <= t < ids@.len() implies (#[trigger] ids@[t]) < n by {
            assert(ids@[t] == ids_rev@[nr - 1 - t]);
        }
    }
    Some((ids, total))
}

} // verus!
