use vstd::prelude::*;

verus! {

/// A directed edge to `to` with weight `cost`.
#[derive(Clone, Copy, PartialEq, Eq)]
pub struct Edge {
    pub to: usize,
    pub cost: i64,
}

impl Edge {
    pub fn new(to: usize, cost: i64) -> (r: Self)
        ensures
            r.to == to,
            r.cost == cost,
    {
        Self { to, cost }
    }
}

/// A vertex together with its tentative distance.
#[derive(Clone, Copy, PartialEq, Eq)]
pub struct State {
    pub cost: i64,
    pub cur_node: usize,
}

/// The adjacency lists of a graph, as sequences.
pub open spec fn adjacency(graph: Seq<Vec<Edge>>) -> Seq<Seq<Edge>> {
    graph.map_values(|r: Vec<Edge>| r@)
}

/// There is a walk from `s` to `v` of total weight `d` using at most `k` edges.
pub open spec fn has_path(g: Seq<Seq<Edge>>, s: int, v: int, d: int, k: nat) -> bool
    decreases k,
{
    if k == 0 {
        v == s && d == 0
    } else {
        has_path(g, s, v, d, (k - 1) as nat) || exists|u: int, j: int|
            0 <= u < g.len() && 0 <= j < g[u].len() && #[trigger] g[u][j].to == v
                && has_path(g, s, u, d - g[u][j].cost, (k - 1) as nat)
    }
}

/// Every edge points at a vertex of the graph and has a weight of at least 0.
pub open spec fn edges_ok(g: Seq<Seq<Edge>>) -> bool {
    forall|u: int, j: int|
        0 <= u < g.len() && 0 <= j < g[u].len() ==> {
            let e = #[trigger] g[u][j];
            &&& e.to < g.len()
            &&& 0 <= e.cost
        }
}

/// Every walk from `s` of at most `n` edges weighs less than `i64::MAX`, the
/// mark of an unreachable vertex.
pub open spec fn walks_fit(g: Seq<Seq<Edge>>, s: int, n: nat) -> bool {
    forall|v: int, d: int| #[trigger] has_path(g, s, v, d, n) ==> d < i64::MAX
}

/// Number of entries of `done` that are false.
pub open spec fn pending(done: Seq<bool>) -> nat
    decreases done.len(),
{
    if done.len() == 0 {
        0
    } else {
        pending(done.drop_last()) + if done.last() { 0nat } else { 1nat }
    }
}

proof fn lemma_pending_bound(done: Seq<bool>)
    ensures
        pending(done) <= done.len(),
    decreases done.len(),
{
    if done.len() > 0 {
        lemma_pending_bound(done.drop_last());
    }
}

proof fn lemma_pending_mark(done: Seq<bool>, i: int)
    requires
        0 <= i < done.len(),
        !done[i],
    ensures
        pending(done.update(i, true)) + 1 == pending(done),
    decreases done.len(),
{
    let d2 = done.update(i, true);
    if i < done.len() - 1 {
        assert(d2.drop_last() =~= done.drop_last().update(i, true));
        lemma_pending_mark(done.drop_last(), i);
    } else {
        assert(d2.drop_last() =~= done.drop_last());
    }
}

proof fn lemma_path_mono(g: Seq<Seq<Edge>>, s: int, v: int, d: int, k1: nat, k2: nat)
    requires
        k1 <= k2,
        has_path(g, s, v, d, k1),
    ensures
        has_path(g, s, v, d, k2),
    decreases k2,
{
    if k1 < k2 {
        lemma_path_mono(g, s, v, d, k1, (k2 - 1) as nat);
    }
}

/// The unfinished vertex of least tentative distance, if any has a distance
/// other than `i64::MAX`.
fn closest_unvisited(dist: &Vec<i64>, done: &Vec<bool>) -> (r: Option<State>)
    requires
        dist@.len() == done@.len(),
    ensures
        match r {
            Some(s) => {
                &&& s.cur_node < dist@.len()
                &&& !done@[s.cur_node as int]
                &&& s.cost == dist@[s.cur_node as int]
                &&& s.cost != i64::MAX
                &&& forall|v: int| 0 <= v < dist@.len() && !done@[v] ==> s.cost <= #[trigger] dist@[v]
            },
            None => forall|v: int| 0 <= v < dist@.len() && !done@[v] ==> #[trigger] dist@[v] == i64::MAX,
        },
{
    let mut best: Option<State> = None;
    let mut i: usize = 0;
    while i < dist.len()
        invariant
            dist@.len() == done@.len(),
            i <= dist@.len(),
            match best {
                Some(s) => {
                    &&& s.cur_node < i
                    &&& !done@[s.cur_node as int]
                    &&& s.cost == dist@[s.cur_node as int]
                    &&& s.cost != i64::MAX
                    &&& forall|v: int| 0 <= v < i && !done@[v] ==> s.cost <= #[trigger] dist@[v]
                },
                None => forall|v: int| 0 <= v < i && !done@[v] ==> #[trigger] dist@[v] == i64::MAX,
            },
        decreases dist@.len() - i,
    {
        if !done[i] && dist[i] != i64::MAX {
            let better = match best {
                None => true,
                Some(s) => dist[i] < s.cost,
            };
            if better {
                best = Some(State { cost: dist[i], cur_node: i });
            }
        }
        i = i + 1;
    }
    best
}

/// Shortest distances from `start` over edges of weight at least 0;
/// `i64::MAX` marks a vertex that cannot be reached. No walk of up to
/// `graph.len()` edges from `start` may weigh `i64::MAX` or more.
pub fn dijkstra(graph: &[Vec<Edge>], start: usize) -> (dist: Vec<i64>)
    requires
        start < graph@.len(),
        edges_ok(adjacency(graph@)),
        walks_fit(adjacency(graph@), start as int, graph@.len() as nat),
    ensures
        dist@.len() == graph@.len(),
        dist@[start as int] == 0,
        forall|v: int|
            0 <= v < dist@.len() && #[trigger] dist@[v] != i64::MAX ==> 0 <= dist@[v] && has_path(
                adjacency(graph@),
                start as int,
                v,
                dist@[v] as int,
                graph@.len() as nat,
            ),
        forall|u: int, j: int|
            0 <= u < graph@.len() && 0 <= j < graph@[u]@.len() && dist@[u] != i64::MAX ==> {
                let e = #[trigger] adjacency(graph@)[u][j];
                dist@[e.to as int] <= dist@[u] + e.cost
            },
{
    let ghost g = adjacency(graph@);
    let n = graph.len();
    let mut dist: Vec<i64> = Vec::new();
    let mut done: Vec<bool> = Vec::new();
    let mut i: usize = 0;
    while i < n
        invariant
            i <= n,
            dist@.len() == i,
            done@.len() == i,
            forall|v: int| 0 <= v < i ==> dist@[v] == i64::MAX && !done@[v],
        decreases n - i,
    {
        dist.push(i64::MAX);
        done.push(false);
        i = i + 1;
    }
    dist.set(start, 0);
    proof {
        assert forall|v: int| 0 <= v < n implies !(#[trigger] done@[v]) by {}
        assert(pending(done@) == n) by {
            lemma_all_pending(done@);
        }
    }
    loop
        invariant
            n == graph@.len(),
            g == adjacency(graph@),
            edges_ok(g),
            walks_fit(g, start as int, n as nat),
            start < n,
            dist@.len() == n,
            done@.len() == n,
            pending(done@) <= n,
            dist@[start as int] == 0,
            forall|v: int| 0 <= v < n && #[trigger] dist@[v] != i64::MAX ==> {
                &&& 0 <= dist@[v]
                &&& has_path(g, start as int, v, dist@[v] as int, (n - pending(done@)) as nat)
            },
            forall|u: int| 0 <= u < n && #[trigger] done@[u] ==> dist@[u] != i64::MAX,
            forall|u: int, v: int| 0 <= u < n && 0 <= v < n && #[trigger] done@[u] && !#[trigger] done@[v] ==> dist@[u] <= dist@[v],
            forall|u: int, j: int|
                0 <= u < n && 0 <= j < g[u].len() && done@[u] ==> {
                    let e = #[trigger] g[u][j];
                    dist@[e.to as int] <= dist@[u] + e.cost
                },
        ensures
            forall|v: int| 0 <= v < n && !done@[v] ==> #[trigger] dist@[v] == i64::MAX,
        decreases pending(done@),
    {
        let next = closest_unvisited(&dist, &done);
        match next {
            None => {
                break;
            },
            Some(s) => {
                let cur = s.cur_node;
                let cost = s.cost;
                let ghost k = (n - pending(done@)) as nat;
                proof {
                    lemma_pending_mark(done@, cur as int);
                    assert(k < n);
                }
                done.set(cur, true);
                let ghost k1 = (n - pending(done@)) as nat;
                assert(k1 == k + 1);
                let ghost dist0 = dist@;
                proof {
                    assert forall|v: int| 0 <= v < n && #[trigger] dist@[v] != i64::MAX implies {
                        &&& 0 <= dist@[v]
                        &&& has_path(g, start as int, v, dist@[v] as int, k1)
                    } by {
                        lemma_path_mono(g, start as int, v, dist@[v] as int, k, k1);
                    }
                }
                let edges = &graph[cur];
                assert(edges@ == g[cur as int]);
                let mut j: usize = 0;
                while j < edges.len()
                    invariant
                        n == graph@.len(),
                        g == adjacency(graph@),
                        edges_ok(g),
                        walks_fit(g, start as int, n as nat),
                        start < n,
                        cur < n,
                        edges@ == g[cur as int],
                        j <= edges@.len(),
                        dist@.len() == n,
                        done@.len() == n,
                        done@[cur as int],
                        k1 == n - pending(done@),
                        k1 == k + 1,
                        k < n,
                        cost == dist@[cur as int],
                        0 <= cost,
                        has_path(g, start as int, cur as int, cost as int, k),
                        dist@[start as int] == 0,
                        forall|v: int| 0 <= v < n && #[trigger] dist@[v] != i64::MAX ==> {
                            &&& 0 <= dist@[v]
                            &&& has_path(g, start as int, v, dist@[v] as int, k1)
                        },
                        forall|u: int| 0 <= u < n && #[trigger] done@[u] ==> dist@[u] != i64::MAX,
                        forall|u: int| 0 <= u < n && #[trigger] done@[u] ==> dist@[u] <= cost,
                        forall|v: int| 0 <= v < n && !#[trigger] done@[v] ==> cost <= dist@[v],
                        forall|u: int| 0 <= u < n && #[trigger] done@[u] ==> dist@[u] == dist0[u],
                        forall|u: int, jj: int|
                            0 <= u < n && 0 <= jj < g[u].len() && done@[u] && u != cur ==> {
                                let e = #[trigger] g[u][jj];
                                dist@[e.to as int] <= dist@[u] + e.cost
                            },
                        forall|jj: int| 0 <= jj < j ==> {
                            let e = #[trigger] g[cur as int][jj];
                            dist@[e.to as int] <= cost + e.cost
                        },
                    decreases edges@.len() - j,
                {
                    let e = edges[j];
                    assert(e == g[cur as int][j as int]);
                    assert(e.to < n && 0 <= e.cost);
                    proof {
                        assert(g[cur as int][j as int].to == e.to);
                        assert(has_path(g, start as int, e.to as int, cost + e.cost, k1));
                        lemma_path_mono(g, start as int, e.to as int, cost + e.cost, k1, n as nat);
                    }
                    let nc = cost + e.cost;
                    if nc < dist[e.to] {
                        let ghost before = dist@;
                        dist.set(e.to, nc);
                        proof {
                            assert(!done@[e.to as int]);
                            assert forall|u: int| 0 <= u < n && #[trigger] done@[u] implies dist@[u] == dist0[u] by {
                                assert(before[u] == dist0[u]);
                            }
                        }
                    }
                    j = j + 1;
                }
                proof {
                    assert forall|u: int, v: int| 0 <= u < n && 0 <= v < n && #[trigger] done@[u] && !#[trigger] done@[v] implies dist@[u] <= dist@[v] by {}
                    assert forall|u: int, jj: int|
                        0 <= u < n && 0 <= jj < g[u].len() && done@[u] implies {
                            let e = #[trigger] g[u][jj];
                            dist@[e.to as int] <= dist@[u] + e.cost
                        } by {}
                }
            },
        }
    }
    proof {
        assert forall|v: int| 0 <= v < n && #[trigger] dist@[v] != i64::MAX implies 0 <= dist@[v] && has_path(
            g,
            start as int,
            v,
            dist@[v] as int,
            n as nat,
        ) by {
            lemma_pending_bound(done@);
            lemma_path_mono(g, start as int, v, dist@[v] as int, (n - pending(done@)) as nat, n as nat);
        }
        assert forall|u: int, j: int|
            0 <= u < n && 0 <= j < graph@[u]@.len() && dist@[u] != i64::MAX implies {
                let e = #[trigger] adjacency(graph@)[u][j];
                dist@[e.to as int] <= dist@[u] + e.cost
            } by {
            assert(g[u] == graph@[u]@);
            assert(done@[u]);
        }
    }
    dist
}

proof fn lemma_all_pending(done: Seq<bool>)
    requires
        forall|v: int| 0 <= v < done.len() ==> !(#[trigger] done[v]),
    ensures
        pending(done) == done.len(),
    decreases done.len(),
{
    if done.len() > 0 {
        lemma_all_pending(done.drop_last());
    }
}

} // verus!
