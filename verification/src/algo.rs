//! Single-source single-target shortest-path search.

use vstd::prelude::*;

verus! {

use crate::graph::Graph;
use crate::graph::Node;
use crate::graph::copy_node;
use crate::graph::count_true;
use crate::graph::lemma_count_true_pos;
use crate::graph::lemma_count_true_update;
use crate::graph::lemma_reachable_refl;
use crate::graph::reachable;
use crate::graph::walk_in;

/// Every neighbour of every settled (no longer open) position has a known
/// distance: the settled frontier has been fully relaxed.
pub(crate) open spec fn settled_closed(
    g: Graph,
    dist: Seq<Option<u64>>,
    in_queue: Seq<bool>,
    directed: bool,
) -> bool {
    forall|u: int, j: int|
        0 <= u < g.nodes@.len() && 0 <= j < g.nodes@.len() && !in_queue[u] && #[trigger] g.edge(
            u,
            j,
            directed,
        ) ==> dist[j] is Some
}

/// When every open position has no known distance and the settled ones are
/// fully relaxed, a walk from a known position only crosses known positions.
proof fn lemma_walk_settled(
    g: Graph,
    dist: Seq<Option<u64>>,
    in_queue: Seq<bool>,
    p: Seq<int>,
    directed: bool,
)
    requires
        walk_in(g, p, directed),
        in_queue.len() == g.nodes@.len(),
        dist.len() == g.nodes@.len(),
        dist[p.first()] is Some,
        forall|x: int| 0 <= x < g.nodes@.len() && #[trigger] in_queue[x] ==> dist[x] is None,
        settled_closed(g, dist, in_queue, directed),
    ensures
        dist[p.last()] is Some,
    decreases p.len(),
{
    if p.len() > 1 {
        assert(0 <= p[0] < g.nodes@.len());
        assert(!in_queue[p[0]]);
        assert(g.edge(p[0], p[1], directed));
        assert(dist[p[1]] is Some);
        let q = p.subrange(1, p.len() as int);
        assert forall|x: int| 0 <= x < q.len() implies 0 <= #[trigger] q[x] < g.nodes@.len() by {
            assert(q[x] == p[x + 1]);
        }
        assert forall|x: int| 0 <= x < q.len() - 1 implies g.edge(#[trigger] q[x], q[x + 1], directed) by {
            assert(q[x] == p[x + 1] && q[x + 1] == p[x + 2]);
        }
        assert(walk_in(g, q, directed));
        assert(q.first() == p[1]);
        lemma_walk_settled(g, dist, in_queue, q, directed);
        assert(q.last() == p.last());
    }
}

/// The well-founded measure for walking a predecessor chain: the settling
/// round of the position, or the current round while it is still open.
pub(crate) open spec fn chain_rank(in_queue: Seq<bool>, rank: Seq<int>, c: int, round: int) -> int {
    if in_queue[c] {
        round
    } else {
        rank[c]
    }
}

/// Dijkstra's shortest-path search from `start` to `end` over the graph's
/// current directedness. The result is the path from `start` to `end`, both
/// inclusive; it is empty exactly when either id is unknown or no path
/// exists. When the graph is weighted each link costs its stored weight,
/// otherwise every link costs one; costs whose sum would not fit the
/// distance word saturate at its maximum.
#[verifier::loop_isolation(false)]
#[verifier::rlimit(100)]
pub fn dijkstra_shortest(graph: &Graph, start: &str, end: &str) -> (r: Vec<Node>)
    requires
        graph.wf(),
    ensures
        !graph.has_node(start@) || !graph.has_node(end@) ==> r@.len() == 0,
        graph.has_node(start@) && start@ == end@ ==> r@.len() == 1 && r@[0]@
            == graph.nodes_view()[graph.node_index(start@)],
        r@.len() > 0 ==> r@[0]@.id == start@ && r@[r@.len() - 1]@.id == end@,
        forall|x: int|
            #![trigger r@[x]]
            0 <= x < r@.len() ==> exists|i: int|
                0 <= i < graph.nodes@.len() && r@[x]@ == graph.nodes_view()[i],
        forall|x: int|
            #![trigger r@[x]]
            0 <= x < r@.len() - 1 ==> graph.connects(r@[x]@.id, r@[x + 1]@.id, graph.directed),
        r@.len() > 0 ==> reachable(
            *graph,
            graph.node_index(start@),
            graph.node_index(end@),
            graph.directed,
        ),
        graph.has_node(start@) && graph.has_node(end@) && reachable(
            *graph,
            graph.node_index(start@),
            graph.node_index(end@),
            graph.directed,
        ) ==> r@.len() > 0,
{
    let n = graph.nodes.len();
    let skey = start.to_owned();
    let ekey = end.to_owned();
    let start_idx: usize = match graph.find_node_index(&skey) {
        Some(i) => i,
        None => {
            return Vec::new();
        },
    };
    let end_idx: usize = match graph.find_node_index(&ekey) {
        Some(i) => i,
        None => {
            return Vec::new();
        },
    };
    if start_idx == end_idx {
        let mut r: Vec<Node> = Vec::new();
        r.push(copy_node(&graph.nodes[start_idx]));
        proof {
            lemma_reachable_refl(*graph, start_idx as int, graph.directed);
        }
        return r;
    }
    // Every node starts in the frontier; only `start` has a known distance.
    let mut dist: Vec<Option<u64>> = Vec::new();
    let mut in_queue: Vec<bool> = Vec::new();
    let mut prev: Vec<Option<usize>> = Vec::new();
    let mut t: usize = 0;
    while t < n
        invariant
            t <= n,
            dist@.len() == t,
            in_queue@.len() == t,
            prev@.len() == t,
            count_true(in_queue@) == t,
            forall|x: int| 0 <= x < t ==> in_queue@[x],
            forall|x: int| 0 <= x < t ==> (#[trigger] prev@[x]) is None,
            forall|x: int|
                0 <= x < t ==> ((#[trigger] dist@[x]) is Some ==> x == start_idx as int),
            start_idx < t ==> dist@[start_idx as int] == Some(0u64),
        decreases n - t,
    {
        let ghost iq_prev = in_queue@;
        if t == start_idx {
            dist.push(Some(0));
        } else {
            dist.push(None);
        }
        in_queue.push(true);
        prev.push(None);
        proof {
            assert(in_queue@.drop_last() =~= iq_prev);
        }
        t += 1;
    }
    let mut queue_len: usize = n;
    let ghost mut rank: Seq<int> = Seq::new(n as nat, |x: int| 0);
    let mut found_end: bool = false;
    let mut exhausted: bool = false;
    while !found_end && !exhausted && queue_len > 0
        invariant
            dist@.len() == n,
            in_queue@.len() == n,
            prev@.len() == n,
            rank.len() == n,
            queue_len == count_true(in_queue@),
            queue_len <= n,
            dist@[start_idx as int] == Some(0u64),
            prev@[start_idx as int] is None,
            found_end ==> dist@[end_idx as int] is Some,
            exhausted ==> forall|x: int|
                0 <= x < n && #[trigger] in_queue@[x] ==> dist@[x] is None,
            forall|x: int| 0 <= x < n && !(#[trigger] in_queue@[x]) ==> dist@[x] is Some,
            settled_closed(*graph, dist@, in_queue@, graph.directed),
            forall|x: int|
                0 <= x < n && x != start_idx as int ==> ((#[trigger] dist@[x]) is Some
                    ==> prev@[x] is Some),
            forall|x: int| 0 <= x < n ==> ((#[trigger] prev@[x]) is Some ==> dist@[x] is Some),
            forall|x: int|
                0 <= x < n && !in_queue@[x] ==> 0 <= #[trigger] rank[x] < n - queue_len,
            forall|x: int|
                #![trigger prev@[x]]
                0 <= x < n ==> (prev@[x] matches Some(y) ==> y < n && graph.connects(
                    graph.nodes_view()[y as int].id,
                    graph.nodes_view()[x].id,
                    graph.directed,
                ) && !in_queue@[y as int] && rank[y as int] < chain_rank(
                    in_queue@,
                    rank,
                    x,
                    n - queue_len,
                )),
        decreases queue_len,
    {
        // The still-open node with the least known distance.
        let mut best: usize = 0;
        let mut has_best: bool = false;
        let mut i: usize = 0;
        while i < n
            invariant
                i <= n,
                has_best ==> best < n && in_queue@[best as int] && dist@[best as int] is Some,
                !has_best ==> forall|ii: int|
                    0 <= ii < i && #[trigger] in_queue@[ii] ==> dist@[ii] is None,
            decreases n - i,
        {
            if in_queue[i] {
                if let Some(d) = dist[i] {
                    let better: bool = if has_best {
                        match dist[best] {
                            Some(bd) => d < bd,
                            None => true,
                        }
                    } else {
                        true
                    };
                    if better {
                        best = i;
                        has_best = true;
                    }
                }
            }
            i += 1;
        }
        if !has_best {
            // Everything still open is unreachable.
            exhausted = true;
            break ;
        } else if best == end_idx {
            found_end = true;
            break ;
        } else {
            let dm: u64 = match dist[best] {
                Some(d) => d,
                None => 0,
            };
            let ghost iq_before = in_queue@;
            let ghost rank_before = rank;
            in_queue[best] = false;
            proof {
                lemma_count_true_update(iq_before, best as int, false);
                rank = rank.update(best as int, n - queue_len);
            }
            queue_len -= 1;
            proof {
                assert forall|x: int|
                    0 <= x < n && !in_queue@[x] implies 0 <= #[trigger] rank[x] < n
                    - queue_len by {
                    if x != best as int {
                        assert(rank[x] == rank_before[x]);
                    }
                }
                assert forall|x: int| #![trigger prev@[x]]
                    0 <= x < n implies (prev@[x] matches Some(y) ==> y < n && graph.connects(
                    graph.nodes_view()[y as int].id,
                    graph.nodes_view()[x].id,
                    graph.directed,
                ) && !in_queue@[y as int] && rank[y as int] < chain_rank(
                    in_queue@,
                    rank,
                    x,
                    n - queue_len,
                )) by {
                    if prev@[x] is Some {
                        let y = prev@[x]->Some_0;
                        assert(!iq_before[y as int]);
                        assert(rank[y as int] == rank_before[y as int]);
                    }
                }
            }
            // Relax every open neighbour of the chosen node.
            let mut j: usize = 0;
            while j < n
                invariant
                    j <= n,
                    best < n,
                    dist@.len() == n,
                    prev@.len() == n,
                    dist@[start_idx as int] == Some(0u64),
                    prev@[start_idx as int] is None,
                    forall|x: int| 0 <= x < n && !(#[trigger] in_queue@[x]) ==> dist@[x] is Some,
                    forall|u: int, j2: int|
                        0 <= u < n && 0 <= j2 < n && !in_queue@[u] && u != best as int
                            && #[trigger] graph.edge(u, j2, graph.directed) ==> dist@[j2] is Some,
                    forall|j2: int|
                        0 <= j2 < j && #[trigger] graph.edge(best as int, j2, graph.directed)
                            ==> dist@[j2] is Some,
                    forall|x: int|
                        0 <= x < n && x != start_idx as int ==> ((#[trigger] dist@[x]) is Some
                            ==> prev@[x] is Some),
                    forall|x: int|
                        0 <= x < n ==> ((#[trigger] prev@[x]) is Some ==> dist@[x] is Some),
                    forall|x: int|
                        #![trigger prev@[x]]
                        0 <= x < n ==> (prev@[x] matches Some(y) ==> y < n && graph.connects(
                            graph.nodes_view()[y as int].id,
                            graph.nodes_view()[x].id,
                            graph.directed,
                        ) && !in_queue@[y as int] && rank[y as int] < chain_rank(
                            in_queue@,
                            rank,
                            x,
                            n - queue_len,
                        )),
                decreases n - j,
            {
                if in_queue[j] && graph.edge_exec(best, j, graph.directed) {
                    let w: u64 = if graph.weighted {
                        graph.link_weight(best, j)
                    } else {
                        1
                    };
                    let alt: u64 = if w <= u64::MAX - dm {
                        dm + w
                    } else {
                        u64::MAX
                    };
                    let better: bool = match dist[j] {
                        Some(dj) => alt < dj,
                        None => true,
                    };
                    if better {
                        dist[j] = Some(alt);
                        prev[j] = Some(best);
                    }
                }
                j += 1;
            }
            proof {
                assert forall|u: int, j2: int|
                    0 <= u < n && 0 <= j2 < n && !in_queue@[u] && #[trigger] graph.edge(
                        u,
                        j2,
                        graph.directed,
                    ) implies dist@[j2] is Some by {
                    if u != best as int {
                        assert(dist@[j2] is Some);
                    }
                }
            }
        }
    }
    proof {
        if graph.has_node(start@) && graph.has_node(end@) && reachable(
            *graph,
            graph.node_index(start@),
            graph.node_index(end@),
            graph.directed,
        ) {
            if !found_end {
                if !exhausted {
                    assert(queue_len == 0);
                    assert forall|x: int| 0 <= x < n implies !(#[trigger] in_queue@[x]) by {
                        if in_queue@[x] {
                            lemma_count_true_pos(in_queue@, x);
                        }
                    }
                }
                assert forall|x: int|
                    0 <= x < n && #[trigger] in_queue@[x] implies dist@[x] is None by {}
                let p = choose|p: Seq<int>|
                    #[trigger] walk_in(*graph, p, graph.directed) && p.first() == graph.node_index(
                        start@,
                    ) && p.last() == graph.node_index(end@);
                assert(graph.node_index(start@) == start_idx as int);
                assert(graph.node_index(end@) == end_idx as int);
                assert(dist@[p.first()] is Some);
                lemma_walk_settled(*graph, dist@, in_queue@, p, graph.directed);
            }
            assert(dist@[end_idx as int] is Some);
            assert(prev@[end_idx as int] is Some);
        }
    }
    // Walk the predecessor chain backward from `end`; without a predecessor
    // there (and `end != start`) no path was found.
    match prev[end_idx] {
        Some(_) => {},
        None => {
            return Vec::new();
        },
    }
    let mut chain: Vec<usize> = Vec::new();
    chain.push(end_idx);
    let mut cidx: usize = end_idx;
    let mut ok: bool = false;
    let mut fuel: usize = n;
    proof {
        if in_queue@[end_idx as int] {
            lemma_count_true_pos(in_queue@, end_idx as int);
        }
    }
    while fuel > 0
        invariant
            !ok,
            chain@.len() >= 1,
            chain@[0] == end_idx,
            chain@[chain@.len() - 1] == cidx,
            cidx < n,
            dist@[cidx as int] is Some,
            chain_rank(in_queue@, rank, cidx as int, n - queue_len) < fuel,
            forall|x: int| 0 <= x < chain@.len() ==> (#[trigger] chain@[x]) < n,
            forall|x: int|
                #![trigger chain@[x]]
                0 <= x < chain@.len() - 1 ==> prev@[chain@[x] as int] == Some(chain@[x + 1]),
        decreases fuel,
    {
        match prev[cidx] {
            Some(p) => {
                proof {
                    assert(rank[p as int] < chain_rank(in_queue@, rank, cidx as int, n - queue_len));
                }
                chain.push(p);
                cidx = p;
                fuel -= 1;
            },
            None => {
                assert(cidx == start_idx);
                ok = true;
                break ;
            },
        }
    }
    if !ok {
        // Never taken: the walk always reaches `start`, since the settling
        // rounds along the predecessor chain decrease strictly and stay
        // nonnegative, so the fuel cannot run out first.
        proof {
            assert(chain_rank(in_queue@, rank, cidx as int, n - queue_len) >= 0);
            assert(false);
        }
        return Vec::new();
    }
    let ghost clen = chain@.len();
    let mut r: Vec<Node> = Vec::new();
    let mut x: usize = chain.len();
    while x > 0
        invariant
            x <= chain@.len(),
            r@.len() == chain@.len() - x,
            forall|y: int|
                0 <= y < r@.len() ==> (#[trigger] r@[y])@ == graph.nodes_view()[chain@[chain@.len()
                    - 1 - y] as int],
        decreases x,
    {
        x -= 1;
        r.push(copy_node(&graph.nodes[chain[x]]));
    }
    proof {
        assert(chain@[clen - 1] == start_idx);
        assert(r@[0]@ == graph.nodes_view()[start_idx as int]);
        assert(r@[r@.len() - 1]@ == graph.nodes_view()[end_idx as int]);
        assert forall|y: int| #![trigger r@[y]] 0 <= y < r@.len() implies exists|i: int|
            0 <= i < graph.nodes@.len() && r@[y]@ == graph.nodes_view()[i] by {
            let i = chain@[clen - 1 - y] as int;
            assert(r@[y]@ == graph.nodes_view()[i]);
        }
        assert forall|y: int| #![trigger r@[y]] 0 <= y < r@.len() - 1 implies graph.connects(
            r@[y]@.id,
            r@[y + 1]@.id,
            graph.directed,
        ) by {
            let a = chain@[clen - 1 - y];
            let b = chain@[clen - 2 - y];
            assert(prev@[b as int] == Some(a));
            assert(graph.connects(
                graph.nodes_view()[a as int].id,
                graph.nodes_view()[b as int].id,
                graph.directed,
            ));
            assert(r@[y]@.id == graph.nodes_view()[a as int].id);
            assert(r@[y + 1]@.id == graph.nodes_view()[b as int].id);
        }
        let pth = Seq::new(clen as nat, |x: int| chain@[clen - 1 - x] as int);
        assert forall|x: int| 0 <= x < pth.len() implies 0 <= #[trigger] pth[x]
            < graph.nodes@.len() by {
            assert(pth[x] == chain@[clen - 1 - x] as int);
        }
        assert forall|x: int| 0 <= x < pth.len() - 1 implies graph.edge(
            #[trigger] pth[x],
            pth[x + 1],
            graph.directed,
        ) by {
            let a = chain@[clen - 1 - x];
            let b = chain@[clen - 2 - x];
            assert(pth[x] == a as int && pth[x + 1] == b as int);
            assert(prev@[b as int] == Some(a));
            assert(graph.connects(
                graph.nodes_view()[a as int].id,
                graph.nodes_view()[b as int].id,
                graph.directed,
            ));
        }
        assert(walk_in(*graph, pth, graph.directed));
        assert(pth.first() == start_idx as int && pth.last() == end_idx as int);
        assert(reachable(*graph, start_idx as int, end_idx as int, graph.directed));
    }
    r
}

} // verus!
