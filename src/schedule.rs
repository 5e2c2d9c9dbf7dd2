//! Execution order of an audio graph: the nodes upstream of the sink, each
//! weighted one more than its heaviest predecessor, listed by weight.
use crate::topology::{
    AudioGraph, EdgeSpec, graph_edge_count, graph_edge_endpoints, graph_edges, graph_node_count,
    graph_nodes, topology_wf,
};
use vstd::prelude::*;

verus! {

/// A set of nodes that holds the source of every edge whose target it holds.
pub open spec fn pred_closed(edges: Seq<EdgeSpec>, s: Set<int>) -> bool {
    forall|j: int|
        0 <= j < edges.len() && s.contains(#[trigger] edges[j].to as int) ==> s.contains(
            edges[j].from as int,
        )
}

/// The nodes from which `sink` can be reached: the least set that holds
/// `sink` and is closed under predecessors.
pub open spec fn upstream(edges: Seq<EdgeSpec>, sink: int) -> Set<int> {
    Set::new(
        |v: int|
            forall|t: Set<int>| #[trigger] pred_closed(edges, t) && t.contains(sink) ==> t.contains(v),
    )
}

/// The weight of node `v` read off the first `k` edges: 0 when none of them
/// enters `v`, else one more than the heaviest source among those that do.
pub open spec fn pred_depth(edges: Seq<EdgeSpec>, level: Seq<usize>, v: int, k: int) -> int
    decreases k,
{
    if k <= 0 {
        0
    } else {
        let d = pred_depth(edges, level, v, k - 1);
        let e = edges[k - 1];
        if e.to == v && level[e.from as int] + 1 > d {
            level[e.from as int] + 1
        } else {
            d
        }
    }
}

/// `rank` rises along every edge into the upstream part of the graph.
pub open spec fn ranks_upstream(edges: Seq<EdgeSpec>, sink: int, rank: spec_fn(int) -> nat) -> bool {
    forall|j: int|
        0 <= j < edges.len() && upstream(edges, sink).contains(#[trigger] edges[j].to as int)
            ==> rank(edges[j].from as int) < rank(edges[j].to as int)
}

/// The upstream part of the graph has no cycle: some ranking of its nodes
/// rises along every edge into it.
pub open spec fn acyclic_upstream(edges: Seq<EdgeSpec>, sink: int) -> bool {
    exists|rank: spec_fn(int) -> nat| #[trigger] ranks_upstream(edges, sink, rank)
}

/// Node `a` comes before node `b`: by weight, then by index.
pub open spec fn key_lt(level: Seq<usize>, a: usize, b: usize) -> bool {
    level[a as int] < level[b as int] || (level[a as int] == level[b as int] && a < b)
}

/// `levels` weighs every upstream node as `pred_depth` says, and `order`
/// lists exactly the upstream nodes, strictly ascending by weight and index.
pub open spec fn schedule_ok(
    edges: Seq<EdgeSpec>,
    n: nat,
    sink: int,
    order: Seq<usize>,
    levels: Seq<usize>,
) -> bool {
    &&& levels.len() == n
    &&& forall|v: int|
        0 <= v < n && #[trigger] upstream(edges, sink).contains(v) ==> levels[v] == pred_depth(
            edges,
            levels,
            v,
            edges.len() as int,
        )
    &&& forall|i: int|
        0 <= i < order.len() ==> #[trigger] order[i] < n && upstream(edges, sink).contains(
            order[i] as int,
        )
    &&& forall|v: int| 0 <= v < n && upstream(edges, sink).contains(v) ==> order.contains(v as usize)
    &&& forall|a: int, b: int| 0 <= a < b < order.len() ==> key_lt(levels, #[trigger] order[a], #[trigger] order[b])
}

pub open spec fn count_true(s: Seq<bool>) -> nat
    decreases s.len(),
{
    if s.len() == 0 {
        0
    } else {
        count_true(s.drop_last()) + if s.last() {
            1nat
        } else {
            0nat
        }
    }
}

proof fn lemma_count_bound(s: Seq<bool>)
    ensures
        count_true(s) <= s.len(),
    decreases s.len(),
{
    if s.len() > 0 {
        lemma_count_bound(s.drop_last());
    }
}

proof fn lemma_count_set(s: Seq<bool>, i: int)
    requires
        0 <= i < s.len(),
        !s[i],
    ensures
        count_true(s.update(i, true)) == count_true(s) + 1,
    decreases s.len(),
{
    let t = s.update(i, true);
    if i == s.len() - 1 {
        assert(t.drop_last() =~= s.drop_last());
    } else {
        lemma_count_set(s.drop_last(), i);
        assert(t.drop_last() =~= s.drop_last().update(i, true));
    }
}

proof fn lemma_depth_frame(edges: Seq<EdgeSpec>, level: Seq<usize>, u: int, d: usize, v: int, k: int)
    requires
        0 <= k <= edges.len(),
        0 <= u < level.len(),
        forall|j: int| 0 <= j < k ==> (#[trigger] edges[j]).from < level.len(),
        forall|j: int| 0 <= j < k && (#[trigger] edges[j]).to == v ==> edges[j].from != u,
    ensures
        pred_depth(edges, level.update(u, d), v, k) == pred_depth(edges, level, v, k),
    decreases k,
{
    if k > 0 {
        lemma_depth_frame(edges, level, u, d, v, k - 1);
        let e = edges[k - 1];
        if e.to == v {
            assert(level.update(u, d)[e.from as int] == level[e.from as int]);
        }
    }
}

/// Every predecessor among the first `k` edges weighs less than `v`'s depth.
pub proof fn lemma_depth_above_preds(edges: Seq<EdgeSpec>, level: Seq<usize>, v: int, k: int, j: int)
    requires
        0 <= j < k <= edges.len(),
        edges[j].to == v,
    ensures
        pred_depth(edges, level, v, k) >= level[edges[j].from as int] + 1,
    decreases k,
{
    if j < k - 1 {
        lemma_depth_above_preds(edges, level, v, k - 1, j);
    }
}

proof fn lemma_depth_nonneg(edges: Seq<EdgeSpec>, level: Seq<usize>, v: int, k: int)
    ensures
        pred_depth(edges, level, v, k) >= 0,
    decreases k,
{
    if k > 0 {
        lemma_depth_nonneg(edges, level, v, k - 1);
    }
}

/// Marks the nodes upstream of `sink`.
pub(crate) fn mark_upstream(g: &AudioGraph, sink: usize) -> (mark: Vec<bool>)
    requires
        topology_wf(graph_nodes(*g), graph_edges(*g)),
        sink < graph_nodes(*g).len(),
    ensures
        mark@.len() == graph_nodes(*g).len(),
        forall|v: int|
            0 <= v < mark@.len() ==> (mark@[v] <==> upstream(graph_edges(*g), sink as int).contains(
                v,
            )),
{
    let ghost edges = graph_edges(*g);
    let n = graph_node_count(g);
    let m = graph_edge_count(g);
    let mut mark: Vec<bool> = Vec::new();
    let mut i: usize = 0;
    while i < n
        invariant
            mark@.len() == i,
            i <= n,
            forall|v: int| 0 <= v < i ==> !mark@[v],
        decreases n - i,
    {
        mark.push(false);
        i += 1;
    }
    assert(upstream(edges, sink as int).contains(sink as int));
    mark.set(sink, true);
    let mut stack: Vec<usize> = Vec::new();
    stack.push(sink);
    proof {
        lemma_count_bound(mark@);
        assert(stack@[0] == sink);
        assert(stack@.contains(sink));
    }
    while stack.len() > 0
        invariant
            topology_wf(graph_nodes(*g), edges),
            edges == graph_edges(*g),
            n == graph_nodes(*g).len(),
            m == edges.len(),
            sink < n,
            mark@.len() == n,
            mark@[sink as int],
            forall|i: int| 0 <= i < stack@.len() ==> #[trigger] stack@[i] < n && mark@[stack@[i] as int],
            forall|j: int|
                0 <= j < m && mark@[(#[trigger] edges[j]).to as int] ==> mark@[edges[j].from as int]
                    || stack@.contains(edges[j].to),
            forall|v: int| 0 <= v < n && #[trigger] mark@[v] ==> upstream(edges, sink as int).contains(v),
            count_true(mark@) <= n,
        decreases n - count_true(mark@), stack@.len(),
    {
        let ghost before = stack@;
        let ghost c0 = count_true(mark@);
        let v = stack.pop().unwrap();
        let ghost s0 = stack@.len();
        assert(before.drop_last() =~= stack@);
        proof {
            assert forall|x: usize| before.contains(x) && x != v implies stack@.contains(x) by {
                let k = choose|k: int| 0 <= k < before.len() && before[k] == x;
                assert(k != before.len() - 1);
                assert(stack@[k] == x);
            }
        }
        let mut j: usize = 0;
        while j < m
            invariant
                topology_wf(graph_nodes(*g), edges),
                edges == graph_edges(*g),
                n == graph_nodes(*g).len(),
                m == edges.len(),
                sink < n,
                v < n,
                j <= m,
                mark@.len() == n,
                mark@[sink as int],
                mark@[v as int],
                forall|i: int| 0 <= i < stack@.len() ==> #[trigger] stack@[i] < n && mark@[stack@[i] as int],
                forall|jj: int|
                    0 <= jj < m && mark@[(#[trigger] edges[jj]).to as int] ==> mark@[edges[jj].from as int]
                        || stack@.contains(edges[jj].to) || (edges[jj].to == v && jj >= j),
                forall|w: int| 0 <= w < n && #[trigger] mark@[w] ==> upstream(edges, sink as int).contains(w),
                stack@.len() >= s0,
                count_true(mark@) == c0 + (stack@.len() - s0),
                count_true(mark@) <= n,
            decreases m - j,
        {
            let (from, to) = graph_edge_endpoints(g, j);
            assert(edges[j as int].from < n);
            if to == v && !mark[from] {
                proof {
                    let u = from as int;
                    assert forall|t: Set<int>|
                        pred_closed(edges, t) && t.contains(sink as int) implies t.contains(u) by {
                        assert(upstream(edges, sink as int).contains(v as int));
                        assert(t.contains(v as int));
                        assert(t.contains(edges[j as int].to as int));
                    }
                    assert(upstream(edges, sink as int).contains(u));
                    lemma_count_set(mark@, u);
                    lemma_count_bound(mark@.update(u, true));
                }
                let ghost old_stack = stack@;
                mark.set(from, true);
                stack.push(from);
                proof {
                    assert(stack@[stack@.len() - 1] == from);
                    assert(stack@.contains(from));
                    assert forall|x: usize| old_stack.contains(x) implies stack@.contains(x) by {
                        let k = choose|k: int| 0 <= k < old_stack.len() && old_stack[k] == x;
                        assert(stack@[k] == x);
                    }
                }
            }
            j += 1;
        }
        proof {
            assert forall|jj: int|
                0 <= jj < m && mark@[(#[trigger] edges[jj]).to as int] implies mark@[edges[jj].from as int]
                    || stack@.contains(edges[jj].to) by {
                if edges[jj].to == v {
                } else {
                }
            }
        }
    }
    proof {
        let t = Set::new(|w: int| 0 <= w < n && mark@[w]);
        assert(pred_closed(edges, t)) by {
            assert forall|j: int|
                0 <= j < edges.len() && t.contains(#[trigger] edges[j].to as int) implies t.contains(
                edges[j].from as int,
            ) by {
                assert(edges[j].from < n);
            }
        }
        assert forall|v: int|
            0 <= v < mark@.len() && upstream(edges, sink as int).contains(v) implies mark@[v] by {
            assert(t.contains(v));
        }
    }
    mark
}

/// Where every marked node that is not done has a predecessor that is not
/// done either, no ranking rises along the edges into the marked nodes.
proof fn lemma_stuck_unranked(
    edges: Seq<EdgeSpec>,
    sink: int,
    mark: Seq<bool>,
    done: Seq<bool>,
    rank: spec_fn(int) -> nat,
    k: nat,
)
    requires
        mark.len() == done.len(),
        forall|j: int| 0 <= j < edges.len() ==> (#[trigger] edges[j]).from < mark.len() && edges[j].to < mark.len(),
        forall|j: int| 0 <= j < edges.len() && mark[(#[trigger] edges[j]).to as int] ==> mark[edges[j].from as int],
        forall|v: int|
            0 <= v < mark.len() ==> (mark[v] <==> #[trigger] upstream(edges, sink).contains(v)),
        forall|w: int|
            0 <= w < mark.len() && #[trigger] mark[w] && !done[w] ==> exists|j: int|
                0 <= j < edges.len() && (#[trigger] edges[j]).to == w && !done[edges[j].from as int],
        ranks_upstream(edges, sink, rank),
    ensures
        forall|w: int| 0 <= w < mark.len() && #[trigger] mark[w] && !done[w] ==> rank(w) >= k,
    decreases k,
{
    if k > 0 {
        lemma_stuck_unranked(edges, sink, mark, done, rank, (k - 1) as nat);
        assert forall|w: int| 0 <= w < mark.len() && #[trigger] mark[w] && !done[w] implies rank(w) >= k by {
            let j = choose|j: int|
                0 <= j < edges.len() && (#[trigger] edges[j]).to == w && !done[edges[j].from as int];
            let u = edges[j].from as int;
            assert(mark[u]);
            assert(upstream(edges, sink).contains(w));
        }
    }
}

/// Weighs the marked nodes, one more than their heaviest predecessor; `None`
/// when the marked nodes hold a cycle.
pub(crate) fn assign_levels(g: &AudioGraph, sink: usize, mark: &Vec<bool>) -> (r: Option<Vec<usize>>)
    requires
        topology_wf(graph_nodes(*g), graph_edges(*g)),
        sink < graph_nodes(*g).len(),
        mark@.len() == graph_nodes(*g).len(),
        forall|v: int|
            0 <= v < mark@.len() ==> (mark@[v] <==> upstream(graph_edges(*g), sink as int).contains(v)),
    ensures
        r is Some <==> acyclic_upstream(graph_edges(*g), sink as int),
        r matches Some(level) ==> {
            &&& level@.len() == mark@.len()
            &&& forall|v: int|
                0 <= v < mark@.len() && #[trigger] mark@[v] ==> level@[v] == pred_depth(
                    graph_edges(*g),
                    level@,
                    v,
                    graph_edges(*g).len() as int,
                ) && level@[v] < mark@.len()
        },
{
    let ghost edges = graph_edges(*g);
    let n = graph_node_count(g);
    let m = graph_edge_count(g);
    proof {
        assert forall|j: int| 0 <= j < m && mark@[(#[trigger] edges[j]).to as int] implies mark@[edges[j].from as int] by {
            assert(edges[j].from < n);
            let u = edges[j].from as int;
            assert forall|t: Set<int>| pred_closed(edges, t) && t.contains(sink as int) implies t.contains(u) by {
                assert(upstream(edges, sink as int).contains(edges[j].to as int));
                assert(t.contains(edges[j].to as int));
            }
            assert(upstream(edges, sink as int).contains(u));
        }
    }
    let mut level: Vec<usize> = Vec::new();
    let mut done: Vec<bool> = Vec::new();
    let mut i: usize = 0;
    while i < n
        invariant
            level@.len() == i,
            done@.len() == i,
            i <= n,
            forall|v: int| 0 <= v < i ==> !done@[v],
        decreases n - i,
    {
        level.push(0);
        done.push(false);
        i += 1;
    }
    proof {
        assert(done@ =~= Seq::new(n as nat, |v: int| false));
        lemma_count_bound(done@);
        assert(count_true(done@) == 0) by {
            lemma_count_zero(done@);
        }
    }
    loop
        invariant
            topology_wf(graph_nodes(*g), edges),
            edges == graph_edges(*g),
            n == graph_nodes(*g).len(),
            m == edges.len(),
            mark@.len() == n,
            level@.len() == n,
            done@.len() == n,
            forall|j: int| 0 <= j < m && mark@[(#[trigger] edges[j]).to as int] ==> mark@[edges[j].from as int],
            forall|v: int| 0 <= v < n && #[trigger] done@[v] ==> mark@[v],
            forall|v: int|
                0 <= v < n && #[trigger] done@[v] ==> level@[v] == pred_depth(edges, level@, v, m as int),
            forall|j: int| 0 <= j < m && done@[(#[trigger] edges[j]).to as int] ==> done@[edges[j].from as int],
            forall|v: int| 0 <= v < n && #[trigger] done@[v] ==> level@[v] < count_true(done@),
            count_true(done@) <= n,
        ensures
            forall|w: int|
                0 <= w < n && #[trigger] mark@[w] && !done@[w] ==> exists|j: int|
                    0 <= j < m && (#[trigger] edges[j]).to == w && !done@[edges[j].from as int],
        decreases n - count_true(done@),
    {
        let mut progress = false;
        let ghost done0 = done@;
        let ghost c0 = count_true(done@);
        let mut v: usize = 0;
        while v < n
            invariant
                topology_wf(graph_nodes(*g), edges),
                edges == graph_edges(*g),
                n == graph_nodes(*g).len(),
                m == edges.len(),
                v <= n,
                mark@.len() == n,
                level@.len() == n,
                done@.len() == n,
                forall|j: int| 0 <= j < m && mark@[(#[trigger] edges[j]).to as int] ==> mark@[edges[j].from as int],
                forall|w: int| 0 <= w < n && #[trigger] done@[w] ==> mark@[w],
                forall|w: int|
                    0 <= w < n && #[trigger] done@[w] ==> level@[w] == pred_depth(edges, level@, w, m as int),
                forall|j: int| 0 <= j < m && done@[(#[trigger] edges[j]).to as int] ==> done@[edges[j].from as int],
                forall|w: int| 0 <= w < n && #[trigger] done@[w] ==> level@[w] < count_true(done@),
                count_true(done@) <= n,
                count_true(done@) >= c0,
                progress ==> count_true(done@) > c0,
                !progress ==> done@ == done0,
                !progress ==> forall|w: int|
                    0 <= w < v && #[trigger] mark@[w] && !done@[w] ==> exists|j: int|
                        0 <= j < m && (#[trigger] edges[j]).to == w && !done@[edges[j].from as int],
            decreases n - v,
        {
            if mark[v] && !done[v] {
                let mut ready = true;
                let mut depth: usize = 0;
                let mut j: usize = 0;
                let ghost mut witness: int = 0;
                while j < m
                    invariant
                        topology_wf(graph_nodes(*g), edges),
                        edges == graph_edges(*g),
                        n == graph_nodes(*g).len(),
                        m == edges.len(),
                        v < n,
                        j <= m,
                        level@.len() == n,
                        done@.len() == n,
                        forall|w: int| 0 <= w < n && #[trigger] done@[w] ==> level@[w] < count_true(done@),
                        count_true(done@) <= n,
                        ready ==> depth == pred_depth(edges, level@, v as int, j as int),
                        ready ==> depth <= count_true(done@),
                        ready ==> forall|jj: int|
                            0 <= jj < j && (#[trigger] edges[jj]).to == v ==> done@[edges[jj].from as int],
                        !ready ==> 0 <= witness < m && edges[witness].to == v && !done@[edges[witness].from as int],
                    decreases m - j,
                {
                    let (from, to) = graph_edge_endpoints(g, j);
                    assert(edges[j as int].from < n);
                    if to == v {
                        if done[from] {
                            if ready {
                                let d = level[from] + 1;
                                if d > depth {
                                    depth = d;
                                }
                            }
                        } else {
                            ready = false;
                            proof {
                                witness = j as int;
                            }
                        }
                    }
                    j += 1;
                }
                if ready {
                    proof {
                        lemma_depth_nonneg(edges, level@, v as int, m as int);
                        assert forall|w: int| 0 <= w < n && #[trigger] done@[w] implies pred_depth(
                            edges,
                            level@.update(v as int, depth),
                            w,
                            m as int,
                        ) == pred_depth(edges, level@, w, m as int) by {
                            lemma_depth_frame(edges, level@, v as int, depth, w, m as int);
                        }
                        lemma_depth_frame(edges, level@, v as int, depth, v as int, m as int);
                        lemma_count_set(done@, v as int);
                        lemma_count_bound(done@.update(v as int, true));
                    }
                    level.set(v, depth);
                    done.set(v, true);
                    progress = true;
                } else {
                    assert(!progress ==> exists|j: int|
                        0 <= j < m && (#[trigger] edges[j]).to == v && !done@[edges[j].from as int]);
                }
            }
            v += 1;
        }
        if !progress {
            break;
        }
    }
    let mut k: usize = 0;
    while k < n
        invariant
            k <= n,
            n == mark@.len(),
            done@.len() == n,
            level@.len() == n,
            topology_wf(graph_nodes(*g), edges),
            edges == graph_edges(*g),
            n == graph_nodes(*g).len(),
            m == edges.len(),
            forall|w: int| 0 <= w < k && #[trigger] mark@[w] ==> done@[w],
            forall|v: int|
                0 <= v < n ==> (mark@[v] <==> upstream(edges, sink as int).contains(v)),
            forall|j: int| 0 <= j < m ==> (#[trigger] edges[j]).from < n && edges[j].to < n,
            forall|j: int| 0 <= j < m && mark@[(#[trigger] edges[j]).to as int] ==> mark@[edges[j].from as int],
            forall|w: int|
                0 <= w < n && #[trigger] done@[w] ==> level@[w] == pred_depth(edges, level@, w, m as int),
            forall|w: int| 0 <= w < n && #[trigger] done@[w] ==> level@[w] < count_true(done@),
            count_true(done@) <= n,
            forall|w: int|
                0 <= w < n && #[trigger] mark@[w] && !done@[w] ==> exists|j: int|
                    0 <= j < m && (#[trigger] edges[j]).to == w && !done@[edges[j].from as int],
        decreases n - k,
    {
        if mark[k] && !done[k] {
            proof {
                if acyclic_upstream(edges, sink as int) {
                    let rank = choose|rank: spec_fn(int) -> nat| #[trigger] ranks_upstream(edges, sink as int, rank);
                    let w = k as int;
                    lemma_stuck_unranked(edges, sink as int, mark@, done@, rank, rank(w) + 1);
                }
            }
            return None;
        }
        k += 1;
    }
    proof {
        let rank = |v: int| level@[v] as nat;
        assert forall|j: int|
            0 <= j < edges.len() && upstream(edges, sink as int).contains(#[trigger] edges[j].to as int)
            implies rank(edges[j].from as int) < rank(edges[j].to as int) by {
            let t = edges[j].to as int;
            assert(mark@[t]);
            assert(done@[t]);
            lemma_depth_above_preds(edges, level@, t, m as int, j);
        }
        assert(ranks_upstream(edges, sink as int, rank));
        assert forall|v: int| 0 <= v < mark@.len() && #[trigger] mark@[v] implies level@[v] < mark@.len() by {
            assert(done@[v]);
        }
    }
    Some(level)
}

proof fn lemma_count_zero(s: Seq<bool>)
    requires
        forall|i: int| 0 <= i < s.len() ==> !s[i],
    ensures
        count_true(s) == 0,
    decreases s.len(),
{
    if s.len() > 0 {
        lemma_count_zero(s.drop_last());
    }
}

/// Lists the marked nodes by weight, and by index within a weight.
pub(crate) fn order_by_level(mark: &Vec<bool>, level: &Vec<usize>) -> (order: Vec<usize>)
    requires
        level@.len() == mark@.len(),
        forall|v: int| 0 <= v < mark@.len() && #[trigger] mark@[v] ==> level@[v] < mark@.len(),
    ensures
        forall|i: int| 0 <= i < order@.len() ==> #[trigger] order@[i] < mark@.len() && mark@[order@[i] as int],
        forall|v: int| 0 <= v < mark@.len() && #[trigger] mark@[v] ==> order@.contains(v as usize),
        forall|a: int, b: int|
            0 <= a < b < order@.len() ==> key_lt(level@, #[trigger] order@[a], #[trigger] order@[b]),
{
    let n = mark.len();
    let mut order: Vec<usize> = Vec::new();
    let mut l: usize = 0;
    while l < n
        invariant
            l <= n,
            n == mark@.len(),
            level@.len() == n,
            forall|v: int| 0 <= v < n && #[trigger] mark@[v] ==> level@[v] < n,
            forall|i: int|
                0 <= i < order@.len() ==> #[trigger] order@[i] < n && mark@[order@[i] as int]
                    && level@[order@[i] as int] < l,
            forall|v: int| 0 <= v < n && #[trigger] mark@[v] && level@[v] < l ==> order@.contains(v as usize),
            forall|a: int, b: int|
                0 <= a < b < order@.len() ==> key_lt(level@, #[trigger] order@[a], #[trigger] order@[b]),
        decreases n - l,
    {
        let mut v: usize = 0;
        while v < n
            invariant
                l < n,
                v <= n,
                n == mark@.len(),
                level@.len() == n,
                forall|i: int|
                    0 <= i < order@.len() ==> #[trigger] order@[i] < n && mark@[order@[i] as int] && (
                    level@[order@[i] as int] < l || (level@[order@[i] as int] == l && order@[i] < v)),
                forall|w: int|
                    0 <= w < n && #[trigger] mark@[w] && (level@[w] < l || (level@[w] == l && w < v))
                        ==> order@.contains(w as usize),
                forall|a: int, b: int|
                    0 <= a < b < order@.len() ==> key_lt(level@, #[trigger] order@[a], #[trigger] order@[b]),
            decreases n - v,
        {
            if mark[v] && level[v] == l {
                let ghost before = order@;
                order.push(v);
                proof {
                    assert(order@[order@.len() - 1] == v);
                    assert forall|x: usize| before.contains(x) implies order@.contains(x) by {
                        let k = choose|k: int| 0 <= k < before.len() && before[k] == x;
                        assert(order@[k] == x);
                    }
                    assert forall|a: int, b: int|
                        0 <= a < b < order@.len() implies key_lt(level@, #[trigger] order@[a], #[trigger] order@[b]) by {
                        if b == order@.len() - 1 {
                            assert(order@[a] == before[a]);
                        } else {
                            assert(order@[a] == before[a] && order@[b] == before[b]);
                        }
                    }
                }
            }
            v += 1;
        }
        l += 1;
    }
    order
}

/// The upstream set holds the source of every edge into it.
pub proof fn lemma_upstream_closed(edges: Seq<EdgeSpec>, sink: int, j: int)
    requires
        0 <= j < edges.len(),
        upstream(edges, sink).contains(edges[j].to as int),
    ensures
        upstream(edges, sink).contains(edges[j].from as int),
{
    let u = edges[j].from as int;
    assert forall|t: Set<int>| pred_closed(edges, t) && t.contains(sink) implies t.contains(u) by {
        assert(t.contains(edges[j].to as int));
    }
}

proof fn lemma_depth_agree(edges: Seq<EdgeSpec>, l1: Seq<usize>, l2: Seq<usize>, v: int, k: int)
    requires
        0 <= k <= edges.len(),
        forall|j: int| 0 <= j < k && (#[trigger] edges[j]).to == v ==> l1[edges[j].from as int] == l2[edges[j].from as int],
    ensures
        pred_depth(edges, l1, v, k) == pred_depth(edges, l2, v, k),
    decreases k,
{
    if k > 0 {
        lemma_depth_agree(edges, l1, l2, v, k - 1);
    }
}

proof fn lemma_levels_agree_below(
    edges: Seq<EdgeSpec>,
    n: nat,
    sink: int,
    l1: Seq<usize>,
    l2: Seq<usize>,
    d: nat,
)
    requires
        forall|j: int| 0 <= j < edges.len() ==> (#[trigger] edges[j]).from < n && edges[j].to < n,
        l1.len() == n,
        l2.len() == n,
        forall|v: int|
            0 <= v < n && #[trigger] upstream(edges, sink).contains(v) ==> l1[v] == pred_depth(
                edges,
                l1,
                v,
                edges.len() as int,
            ) && l2[v] == pred_depth(edges, l2, v, edges.len() as int),
    ensures
        forall|v: int|
            0 <= v < n && #[trigger] upstream(edges, sink).contains(v) && l1[v] <= d ==> l1[v] == l2[v],
    decreases d,
{
    if d > 0 {
        lemma_levels_agree_below(edges, n, sink, l1, l2, (d - 1) as nat);
    }
    assert forall|v: int| 0 <= v < n && #[trigger] upstream(edges, sink).contains(v) && l1[v] <= d implies l1[v]
        == l2[v] by {
        assert forall|j: int|
            0 <= j < edges.len() && (#[trigger] edges[j]).to == v implies l1[edges[j].from as int]
                == l2[edges[j].from as int] by {
            lemma_upstream_closed(edges, sink, j);
            lemma_depth_above_preds(edges, l1, v, edges.len() as int, j);
            let u = edges[j].from as int;
            assert(upstream(edges, sink).contains(u));
        }
        lemma_depth_agree(edges, l1, l2, v, edges.len() as int);
    }
}

/// Two weightings that both meet `pred_depth` on the upstream nodes agree
/// there: the weights of a schedule are unique.
pub proof fn lemma_levels_unique(edges: Seq<EdgeSpec>, n: nat, sink: int, l1: Seq<usize>, l2: Seq<usize>)
    requires
        forall|j: int| 0 <= j < edges.len() ==> (#[trigger] edges[j]).from < n && edges[j].to < n,
        l1.len() == n,
        l2.len() == n,
        forall|v: int|
            0 <= v < n && #[trigger] upstream(edges, sink).contains(v) ==> l1[v] == pred_depth(
                edges,
                l1,
                v,
                edges.len() as int,
            ) && l2[v] == pred_depth(edges, l2, v, edges.len() as int),
    ensures
        forall|v: int| 0 <= v < n && #[trigger] upstream(edges, sink).contains(v) ==> l1[v] == l2[v],
{
    assert forall|v: int| 0 <= v < n && #[trigger] upstream(edges, sink).contains(v) implies l1[v] == l2[v] by {
        lemma_levels_agree_below(edges, n, sink, l1, l2, l1[v] as nat);
    }
}

/// Two sequences strictly ascending by weight and index, with the same
/// members, are equal.
pub proof fn lemma_sorted_unique(levels: Seq<usize>, o1: Seq<usize>, o2: Seq<usize>)
    requires
        forall|a: int, b: int| 0 <= a < b < o1.len() ==> key_lt(levels, #[trigger] o1[a], #[trigger] o1[b]),
        forall|a: int, b: int| 0 <= a < b < o2.len() ==> key_lt(levels, #[trigger] o2[a], #[trigger] o2[b]),
        forall|x: usize| o1.contains(x) <==> o2.contains(x),
    ensures
        o1 == o2,
    decreases o1.len() + o2.len(),
{
    if o1.len() == 0 {
        if o2.len() > 0 {
            assert(o2.contains(o2[0]));
        }
        assert(o1 =~= o2);
    } else if o2.len() == 0 {
        assert(o1.contains(o1[0]));
    } else {
        let a = o1[0];
        let b = o2[0];
        assert(o1.contains(a));
        assert(o2.contains(b));
        let p = choose|p: int| 0 <= p < o2.len() && o2[p] == a;
        let q = choose|q: int| 0 <= q < o1.len() && o1[q] == b;
        if p > 0 {
            assert(key_lt(levels, o2[0], o2[p]));
            if q > 0 {
                assert(key_lt(levels, o1[0], o1[q]));
            }
        }
        assert(a == b);
        let r1 = o1.subrange(1, o1.len() as int);
        let r2 = o2.subrange(1, o2.len() as int);
        assert forall|x: usize| r1.contains(x) <==> r2.contains(x) by {
            if r1.contains(x) {
                let i = choose|i: int| 0 <= i < r1.len() && r1[i] == x;
                assert(o1[i + 1] == x);
                assert(key_lt(levels, o1[0], o1[i + 1]));
                assert(o2.contains(x));
                let k = choose|k: int| 0 <= k < o2.len() && o2[k] == x;
                assert(k != 0);
                assert(r2[k - 1] == x);
            }
            if r2.contains(x) {
                let i = choose|i: int| 0 <= i < r2.len() && r2[i] == x;
                assert(o2[i + 1] == x);
                assert(key_lt(levels, o2[0], o2[i + 1]));
                assert(o1.contains(x));
                let k = choose|k: int| 0 <= k < o1.len() && o1[k] == x;
                assert(k != 0);
                assert(r1[k - 1] == x);
            }
        }
        assert forall|i: int, j: int| 0 <= i < j < r1.len() implies key_lt(levels, #[trigger] r1[i], #[trigger] r1[j]) by {
            assert(key_lt(levels, o1[i + 1], o1[j + 1]));
        }
        assert forall|i: int, j: int| 0 <= i < j < r2.len() implies key_lt(levels, #[trigger] r2[i], #[trigger] r2[j]) by {
            assert(key_lt(levels, o2[i + 1], o2[j + 1]));
        }
        lemma_sorted_unique(levels, r1, r2);
        assert(o1 =~= seq![a] + r1);
        assert(o2 =~= seq![b] + r2);
    }
}

} // verus!
