use crate::adjacency::adj_array::AdjArray;
use crate::adjacency::adj_array::ADJ_MAX;
use crate::adjacency::error::BuildError;
use crate::adjacency::ranking::keyed_pairs;
use crate::adjacency::ranking::first_non_finite;
use crate::adjacency::ranking::lemma_node_pairs_len;
use crate::adjacency::ranking::lemma_pairs_upto_valid;
use crate::adjacency::ranking::lemma_ranking;
use crate::adjacency::ranking::node_pairs;
use crate::adjacency::ranking::pair_count;
use crate::adjacency::ranking::rank_pairs;
use crate::adjacency::ranking::ranking;
use crate::adjacency::ranking::table_failure;
use crate::adjacency::ranking::Edge;
use vstd::prelude::*;

verus! {

/// How many of the closest pairs become edges: a little over three per node, 61
/// for every 20 nodes, rounded down. Three per node leave some graphs in several
/// parts.
pub open spec fn edge_budget(nodes: nat) -> nat {
    nodes * 61 / 20
}

/// The first `target` edges of the ranking, or all of them where it has fewer.
pub open spec fn taken(ranked: Seq<Edge>, target: nat) -> Seq<Edge> {
    ranked.take(if target <= ranked.len() { target as int } else { ranked.len() as int })
}

/// The list of node `v` after the edge `e` was assigned.
pub open spec fn joined(list: Seq<usize>, e: Edge, v: usize) -> Seq<usize> {
    let first = if e.1.0 == v { list.push(e.1.1) } else { list };
    if e.1.1 == v { first.push(e.1.0) } else { first }
}

/// The neighbours that node `v` has from the given edges, in the order of the edges.
pub open spec fn neighbours(edges: Seq<Edge>, v: usize) -> Seq<usize>
    decreases edges.len(),
{
    if edges.len() == 0 {
        Seq::empty()
    } else {
        joined(neighbours(edges.drop_last(), v), edges.last(), v)
    }
}

/// The edge joins two distinct nodes of a graph of `nodes` nodes, the smaller first.
pub open spec fn valid_pair(nodes: nat, e: Edge) -> bool {
    e.1.0 < e.1.1 && e.1.1 < nodes
}

/// What stops the assignment of the edges, taken in their order: the first edge
/// that is no valid pair, or that meets a node whose list is full. Of the two
/// nodes of an edge the first is looked at first.
pub open spec fn first_failure(nodes: nat, edges: Seq<Edge>) -> Option<BuildError>
    decreases edges.len(),
{
    if edges.len() == 0 {
        None
    } else {
        let front = edges.drop_last();
        let e = edges.last();
        if first_failure(nodes, front).is_some() {
            first_failure(nodes, front)
        } else if !valid_pair(nodes, e) {
            Some(BuildError::InvalidPair { position: front.len() as usize })
        } else if neighbours(front, e.1.0).len() >= ADJ_MAX {
            Some(BuildError::CapacityOverflow { node: e.1.0 })
        } else if neighbours(front, e.1.1).len() >= ADJ_MAX {
            Some(BuildError::CapacityOverflow { node: e.1.1 })
        } else {
            None
        }
    }
}

/// The graph has one list per node, and each list holds what the edges give its node.
pub open spec fn is_graph_of(graph: Seq<AdjArray>, nodes: nat, edges: Seq<Edge>) -> bool {
    &&& graph.len() == nodes
    &&& forall|v: int|
        0 <= v < nodes ==> (#[trigger] graph[v]).wf() && graph[v]@ == neighbours(edges, v as usize)
}

/// The edge lists `b` as a neighbour of `a`.
pub open spec fn links(e: Edge, a: usize, b: usize) -> bool {
    (e.1.0 == a && e.1.1 == b) || (e.1.1 == a && e.1.0 == b)
}

/// The edges of the graph that a distance table gives: the closest pairs, as
/// many as the edge budget allows.
pub open spec fn min_edges(nodes: nat, keys: Seq<u64>) -> Seq<Edge> {
    taken(ranking(nodes, keys), edge_budget(nodes))
}

/// What holds of every graph that was built: each list is within its capacity and
/// names no node twice, only other nodes of the graph, and each of these names the
/// list's own node in turn.
pub open spec fn well_formed_graph(graph: Seq<AdjArray>) -> bool {
    forall|a: int|
        0 <= a < graph.len() ==> {
            &&& (#[trigger] graph[a]).wf()
            &&& graph[a]@.len() <= ADJ_MAX
            &&& graph[a]@.no_duplicates()
            &&& forall|m: int|
                0 <= m < graph[a]@.len() ==> {
                    let b = #[trigger] graph[a]@[m];
                    b < graph.len() && b != a && graph[b as int]@.contains(a as usize)
                }
        }
}

/// Why no graph can be built from a table, if anything: what is wrong with the
/// table, or else what stops the assignment of its closest pairs.
pub open spec fn build_failure(nodes: nat, keys: Seq<u64>) -> Option<BuildError> {
    if table_failure(nodes, keys).is_some() {
        table_failure(nodes, keys)
    } else {
        first_failure(nodes, min_edges(nodes, keys))
    }
}

/// The neighbour lists of the graph with the given edges, one per node.
pub open spec fn graph_of(nodes: nat, edges: Seq<Edge>) -> Seq<Seq<usize>> {
    Seq::new(nodes, |v: int| neighbours(edges, v as usize))
}

/// The neighbour lists of a graph as sequences.
pub open spec fn lists(graph: Seq<AdjArray>) -> Seq<Seq<usize>> {
    Seq::new(graph.len(), |v: int| graph[v]@)
}

/// The edge budget of a graph of `nodes` nodes.
pub fn edge_count(nodes: u16) -> (n: usize)
    ensures
        n == edge_budget(nodes as nat),
{
    let wide: u32 = nodes as u32;
    (wide * 61 / 20) as usize
}

/// Assigns the first `target` edges of the ranking: each gives either of its two
/// nodes the other as its next neighbour. The lists of a graph of `nodes` nodes
/// come back, one per node.
///
/// Fails at the first edge that is no valid pair or that meets a full list, and
/// hands out no graph then.
pub fn assign_edges(nodes: u16, ranked: &Vec<Edge>, target: usize) -> (r: Result<
    Vec<AdjArray>,
    BuildError,
>)
    ensures
        match first_failure(nodes as nat, taken(ranked@, target as nat)) {
            Some(e) => r == Err::<Vec<AdjArray>, BuildError>(e),
            None => r.is_ok() && is_graph_of(
                r.unwrap()@,
                nodes as nat,
                taken(ranked@, target as nat),
            ),
        },
{
    let n: usize = nodes as usize;
    let mut graph: Vec<AdjArray> = Vec::new();
    let mut v: usize = 0;
    while v < n
        invariant
            v <= n,
            graph@.len() == v,
            forall|w: int| 0 <= w < v ==> (#[trigger] graph@[w]).wf() && graph@[w]@.len() == 0,
        decreases n - v,
    {
        graph.push(AdjArray::default());
        v += 1;
    }
    let count: usize = if target <= ranked.len() { target } else { ranked.len() };
    let mut k: usize = 0;
    assert(is_graph_of(graph@, nodes as nat, ranked@.take(0))) by {
        assert forall|w: int| 0 <= w < n implies graph@[w]@ == neighbours(
            ranked@.take(0),
            w as usize,
        ) by {
            assert(graph@[w]@ =~= Seq::<usize>::empty());
        }
    }
    while k < count
        invariant
            n == nodes,
            k <= count <= ranked@.len(),
            count == taken(ranked@, target as nat).len(),
            first_failure(nodes as nat, ranked@.take(k as int)).is_none(),
            is_graph_of(graph@, nodes as nat, ranked@.take(k as int)),
        decreases count - k,
    {
        let edge: Edge = ranked[k];
        let i: usize = edge.1.0;
        let j: usize = edge.1.1;
        let ghost front = ranked@.take(k as int);
        let ghost next = ranked@.take(k + 1);
        proof {
            assert(next.drop_last() =~= front);
            assert(next.last() == edge);
            assert(taken(ranked@, target as nat).take(k + 1) =~= next);
        }
        if !(i < j && j < n) {
            proof {
                lemma_failure_stays(nodes as nat, taken(ranked@, target as nat), k + 1);
            }
            return Err(BuildError::InvalidPair { position: k });
        }
        let mut first: AdjArray = graph[i];
        if first.len() >= ADJ_MAX {
            proof {
                lemma_failure_stays(nodes as nat, taken(ranked@, target as nat), k + 1);
            }
            return Err(BuildError::CapacityOverflow { node: i });
        }
        let mut second: AdjArray = graph[j];
        if second.len() >= ADJ_MAX {
            proof {
                lemma_failure_stays(nodes as nat, taken(ranked@, target as nat), k + 1);
            }
            return Err(BuildError::CapacityOverflow { node: j });
        }
        first.push(j);
        second.push(i);
        let ghost before = graph@;
        graph.set(i, first);
        graph.set(j, second);
        proof {
            assert forall|w: int| 0 <= w < n implies (#[trigger] graph@[w]).wf() && graph@[w]@
                == neighbours(next, w as usize) by {
                assert(before[w].wf());
                assert(before[w]@ == neighbours(front, w as usize));
            }
        }
        k += 1;
    }
    proof {
        assert(ranked@.take(k as int) =~= taken(ranked@, target as nat));
    }
    Ok(graph)
}

/// Builds the neighbour graph of `nodes` nodes from the table of their squared
/// distances: ranks the pairs from the closest to the farthest and makes the first
/// of them edges, as many as the edge budget allows.
///
/// Fails when the table does not fit the tile count, holds a key that is no finite
/// distance, or gives a node more neighbours than a list can hold.
pub fn create_min_edges(nodes: u16, keys: &Vec<u64>) -> (r: Result<Vec<AdjArray>, BuildError>)
    ensures
        match build_failure(nodes as nat, keys@) {
            Some(e) => r == Err::<Vec<AdjArray>, BuildError>(e),
            None => r.is_ok() && is_graph_of(
                r.unwrap()@,
                nodes as nat,
                min_edges(nodes as nat, keys@),
            ),
        },
        r matches Ok(graph) ==> well_formed_graph(graph@) && lists(graph@) == graph_of(
            nodes as nat,
            min_edges(nodes as nat, keys@),
        ),
        r matches Err(e) ==> e is PairCount || e is NonFinite || e is CapacityOverflow,
{
    match rank_pairs(nodes, keys) {
        Err(e) => Err(e),
        Ok(ranked) => {
            let target: usize = edge_count(nodes);
            proof {
                lemma_ranking_pairs(nodes as nat, keys@);
                lemma_failure_is_overflow(nodes as nat, min_edges(nodes as nat, keys@));
            }
            let r = assign_edges(nodes, &ranked, target);
            proof {
                if r.is_ok() {
                    lemma_built_graph(nodes as nat, keys@, r.unwrap()@);
                    assert(lists(r.unwrap()@) =~= graph_of(
                        nodes as nat,
                        min_edges(nodes as nat, keys@),
                    ));
                }
            }
            r
        },
    }
}

/// The edges decide the graph: two graphs of the same edges are the same.
pub proof fn lemma_graph_unique(
    first: Seq<AdjArray>,
    second: Seq<AdjArray>,
    nodes: nat,
    edges: Seq<Edge>,
)
    requires
        is_graph_of(first, nodes, edges),
        is_graph_of(second, nodes, edges),
    ensures
        first == second,
{
    assert forall|v: int| 0 <= v < nodes implies first[v] == second[v] by {
        first[v].lemma_view_injective(second[v]);
    }
    assert(first =~= second);
}

/// Node `a` lists `b` exactly where one of the edges joins the two.
pub proof fn lemma_neighbours_contains(edges: Seq<Edge>, a: usize, b: usize)
    ensures
        neighbours(edges, a).contains(b) <==> exists|k: int|
            0 <= k < edges.len() && links(#[trigger] edges[k], a, b),
    decreases edges.len(),
{
    if edges.len() > 0 {
        let front = edges.drop_last();
        let e = edges.last();
        let before = neighbours(front, a);
        let first = if e.1.0 == a { before.push(e.1.1) } else { before };
        let after = neighbours(edges, a);
        lemma_neighbours_contains(front, a, b);
        if after.contains(b) {
            let m = choose|m: int| 0 <= m < after.len() && after[m] == b;
            if m < before.len() {
                assert(before[m] == b);
                assert(before.contains(b));
                let k = choose|k: int| 0 <= k < front.len() && links(#[trigger] front[k], a, b);
                assert(links(edges[k], a, b));
            } else {
                assert(links(edges[edges.len() - 1], a, b));
            }
        }
        if exists|k: int| 0 <= k < edges.len() && links(#[trigger] edges[k], a, b) {
            let k = choose|k: int| 0 <= k < edges.len() && links(#[trigger] edges[k], a, b);
            if k < front.len() {
                assert(links(front[k], a, b));
                assert(before.contains(b));
                let m = choose|m: int| 0 <= m < before.len() && before[m] == b;
                assert(after[m] == b);
            } else {
                if e.1.1 == a && e.1.0 == b {
                    assert(after[after.len() - 1] == b);
                } else {
                    assert(first[before.len() as int] == b);
                    assert(after[before.len() as int] == b);
                }
            }
        }
    }
}

/// Neighbourhood is mutual: a node lists another exactly where that one lists it.
pub proof fn lemma_neighbours_symmetric(edges: Seq<Edge>, a: usize, b: usize)
    ensures
        neighbours(edges, a).contains(b) <==> neighbours(edges, b).contains(a),
{
    lemma_neighbours_contains(edges, a, b);
    lemma_neighbours_contains(edges, b, a);
    if neighbours(edges, a).contains(b) {
        let k = choose|k: int| 0 <= k < edges.len() && links(#[trigger] edges[k], a, b);
        assert(links(edges[k], b, a));
    }
    if neighbours(edges, b).contains(a) {
        let k = choose|k: int| 0 <= k < edges.len() && links(#[trigger] edges[k], b, a);
        assert(links(edges[k], a, b));
    }
}

/// Where nothing stops the assignment, every edge is a valid pair and no node
/// gets more neighbours than a list holds.
pub proof fn lemma_no_failure(nodes: nat, edges: Seq<Edge>, v: usize)
    requires
        first_failure(nodes, edges).is_none(),
    ensures
        neighbours(edges, v).len() <= ADJ_MAX,
        forall|k: int| 0 <= k < edges.len() ==> valid_pair(nodes, #[trigger] edges[k]),
    decreases edges.len(),
{
    if edges.len() > 0 {
        let front = edges.drop_last();
        lemma_no_failure(nodes, front, v);
        assert forall|k: int| 0 <= k < edges.len() implies valid_pair(nodes, #[trigger] edges[k]) by {
            if k < front.len() {
                assert(edges[k] == front[k]);
            }
        }
    }
}

/// With valid pairs only, the neighbours of a node are other nodes of the graph.
pub proof fn lemma_neighbours_in_range(nodes: nat, edges: Seq<Edge>, v: usize)
    requires
        forall|k: int| 0 <= k < edges.len() ==> valid_pair(nodes, #[trigger] edges[k]),
    ensures
        forall|m: int|
            0 <= m < neighbours(edges, v).len() ==> {
                let w = #[trigger] neighbours(edges, v)[m];
                w < nodes && w != v
            },
        v >= nodes ==> neighbours(edges, v).len() == 0,
    decreases edges.len(),
{
    if edges.len() > 0 {
        let front = edges.drop_last();
        assert forall|k: int| 0 <= k < front.len() implies valid_pair(nodes, #[trigger] front[k]) by {
            assert(front[k] == edges[k]);
        }
        lemma_neighbours_in_range(nodes, front, v);
        assert(valid_pair(nodes, edges[edges.len() - 1]));
        let before = neighbours(front, v);
        let after = neighbours(edges, v);
        assert forall|m: int| 0 <= m < after.len() implies ({
            let w = #[trigger] after[m];
            w < nodes && w != v
        }) by {
            if m < before.len() {
                assert(after[m] == before[m]);
            }
        }
    }
}

/// Where no two edges join the same two nodes, no node lists a neighbour twice.
pub proof fn lemma_neighbours_no_duplicates(nodes: nat, edges: Seq<Edge>, v: usize)
    requires
        forall|k: int| 0 <= k < edges.len() ==> valid_pair(nodes, #[trigger] edges[k]),
        forall|k: int, m: int|
            0 <= k < m < edges.len() ==> (#[trigger] edges[k]).1 != (#[trigger] edges[m]).1,
    ensures
        neighbours(edges, v).no_duplicates(),
    decreases edges.len(),
{
    if edges.len() > 0 {
        let front = edges.drop_last();
        let e = edges.last();
        let before = neighbours(front, v);
        assert forall|k: int| 0 <= k < front.len() implies valid_pair(nodes, #[trigger] front[k]) by {
            assert(front[k] == edges[k]);
        }
        assert forall|k: int, m: int| 0 <= k < m < front.len() implies (#[trigger] front[k]).1 != (
        #[trigger] front[m]).1 by {
            assert(front[k] == edges[k] && front[m] == edges[m]);
        }
        lemma_neighbours_no_duplicates(nodes, front, v);
        assert(valid_pair(nodes, edges[edges.len() - 1]));
        if e.1.0 == v || e.1.1 == v {
            let w = if e.1.0 == v { e.1.1 } else { e.1.0 };
            assert(neighbours(edges, v) == before.push(w));
            lemma_neighbours_contains(front, v, w);
            if before.contains(w) {
                let k = choose|k: int| 0 <= k < front.len() && links(#[trigger] front[k], v, w);
                assert(valid_pair(nodes, edges[k]));
                assert(edges[k].1 == edges[edges.len() - 1].1);
            }
            assert forall|m: int| 0 <= m < before.len() implies before[m] != w by {
                if before[m] == w {
                    assert(before.contains(w));
                }
            }
        }
    }
}

/// A failure among the first edges is the failure of the whole sequence.
pub proof fn lemma_failure_stays(nodes: nat, edges: Seq<Edge>, upto: int)
    requires
        0 <= upto <= edges.len(),
        first_failure(nodes, edges.take(upto)).is_some(),
    ensures
        first_failure(nodes, edges) == first_failure(nodes, edges.take(upto)),
    decreases edges.len() - upto,
{
    if upto < edges.len() {
        assert(edges.take(upto + 1).drop_last() =~= edges.take(upto));
        lemma_failure_stays(nodes, edges, upto + 1);
    } else {
        assert(edges.take(upto) =~= edges);
    }
}

/// In a well-formed graph neighbourhood is mutual.
pub proof fn lemma_graph_symmetric(graph: Seq<AdjArray>, a: usize, b: usize)
    requires
        well_formed_graph(graph),
        a < graph.len(),
        b < graph.len(),
    ensures
        graph[a as int]@.contains(b) <==> graph[b as int]@.contains(a),
{
    if graph[a as int]@.contains(b) {
        let m = choose|m: int| 0 <= m < graph[a as int]@.len() && graph[a as int]@[m] == b;
        assert(graph[graph[a as int]@[m] as int]@.contains(a));
    }
    if graph[b as int]@.contains(a) {
        let m = choose|m: int| 0 <= m < graph[b as int]@.len() && graph[b as int]@[m] == a;
        assert(graph[graph[b as int]@[m] as int]@.contains(b));
    }
}

/// In a well-formed graph no list is longer than its capacity.
pub proof fn lemma_graph_degree(graph: Seq<AdjArray>, a: usize)
    requires
        well_formed_graph(graph),
        a < graph.len(),
    ensures
        graph[a as int]@.len() <= ADJ_MAX,
{
}

/// The ranking of a table lists valid pairs, and no two nodes twice.
pub proof fn lemma_ranking_pairs(nodes: nat, keys: Seq<u64>)
    requires
        nodes <= usize::MAX,
    ensures
        forall|k: int|
            0 <= k < ranking(nodes, keys).len() ==> valid_pair(
                nodes,
                #[trigger] ranking(nodes, keys)[k],
            ),
        forall|k: int, m: int|
            0 <= k < m < ranking(nodes, keys).len() ==> (#[trigger] ranking(nodes, keys)[k]).1 != (
            #[trigger] ranking(nodes, keys)[m]).1,
{
    broadcast use vstd::multiset::group_multiset_axioms;

    let base = keyed_pairs(nodes, keys);
    let pairs = node_pairs(nodes);
    let r = ranking(nodes, keys);
    lemma_ranking(nodes, keys);
    lemma_pairs_upto_valid(nodes, nodes);
    base.to_multiset_ensures();
    r.to_multiset_ensures();
    assert forall|a: int, b: int| 0 <= a < base.len() && 0 <= b < base.len() && a != b implies base[a]
        != base[b] by {
        assert(pairs[a] != pairs[b]);
    }
    base.lemma_multiset_has_no_duplicates();
    r.lemma_multiset_has_no_duplicates_conv();
    assert forall|k: int| 0 <= k < r.len() implies valid_pair(nodes, #[trigger] r[k]) by {
        assert(r.contains(r[k]));
        assert(r.to_multiset().count(r[k]) > 0);
        assert(base.to_multiset().count(r[k]) > 0);
        assert(base.contains(r[k]));
        let a = choose|a: int| 0 <= a < base.len() && base[a] == r[k];
        assert(pairs[a] == r[k].1);
    }
    assert forall|k: int, m: int| 0 <= k < m < r.len() implies (#[trigger] r[k]).1 != (
    #[trigger] r[m]).1 by {
        assert(r.contains(r[k]) && r.contains(r[m]));
        assert(r.to_multiset().count(r[k]) > 0 && r.to_multiset().count(r[m]) > 0);
        assert(base.to_multiset().count(r[k]) > 0 && base.to_multiset().count(r[m]) > 0);
        assert(base.contains(r[k]) && base.contains(r[m]));
        let a = choose|a: int| 0 <= a < base.len() && base[a] == r[k];
        let b = choose|b: int| 0 <= b < base.len() && base[b] == r[m];
        if r[k].1 == r[m].1 {
            assert(pairs[a] == pairs[b]);
            assert(a == b);
            assert(r[k] == r[m]);
        }
    }
}

/// A graph that holds the closest pairs of a table as its edges is well formed.
pub proof fn lemma_built_graph(nodes: nat, keys: Seq<u64>, graph: Seq<AdjArray>)
    requires
        nodes <= usize::MAX,
        first_failure(nodes, min_edges(nodes, keys)).is_none(),
        is_graph_of(graph, nodes, min_edges(nodes, keys)),
    ensures
        well_formed_graph(graph),
{
    let edges = min_edges(nodes, keys);
    let r = ranking(nodes, keys);
    lemma_ranking_pairs(nodes, keys);
    assert forall|k: int| 0 <= k < edges.len() implies valid_pair(nodes, #[trigger] edges[k]) by {
        assert(edges[k] == r[k]);
    }
    assert forall|k: int, m: int| 0 <= k < m < edges.len() implies (#[trigger] edges[k]).1 != (
    #[trigger] edges[m]).1 by {
        assert(edges[k] == r[k] && edges[m] == r[m]);
    }
    assert forall|a: int| 0 <= a < graph.len() implies {
        &&& (#[trigger] graph[a]).wf()
        &&& graph[a]@.len() <= ADJ_MAX
        &&& graph[a]@.no_duplicates()
        &&& forall|m: int|
            0 <= m < graph[a]@.len() ==> {
                let b = #[trigger] graph[a]@[m];
                b < graph.len() && b != a && graph[b as int]@.contains(a as usize)
            }
    } by {
        let list = graph[a]@;
        lemma_no_failure(nodes, edges, a as usize);
        lemma_neighbours_in_range(nodes, edges, a as usize);
        lemma_neighbours_no_duplicates(nodes, edges, a as usize);
        assert forall|m: int| 0 <= m < list.len() implies ({
            let b = #[trigger] list[m];
            b < graph.len() && b != a && graph[b as int]@.contains(a as usize)
        }) by {
            let b = list[m];
            assert(list.contains(b));
            lemma_neighbours_symmetric(edges, a as usize, b);
            assert(graph[b as int]@ == neighbours(edges, b));
        }
    }
}

/// No pair of the ranking stops the assignment for being invalid.
pub proof fn lemma_failure_is_overflow(nodes: nat, edges: Seq<Edge>)
    requires
        forall|k: int| 0 <= k < edges.len() ==> valid_pair(nodes, #[trigger] edges[k]),
    ensures
        first_failure(nodes, edges) matches Some(e) ==> e is CapacityOverflow,
    decreases edges.len(),
{
    if edges.len() > 0 {
        let front = edges.drop_last();
        assert forall|k: int| 0 <= k < front.len() implies valid_pair(nodes, #[trigger] front[k]) by {
            assert(front[k] == edges[k]);
        }
        lemma_failure_is_overflow(nodes, front);
        assert(valid_pair(nodes, edges[edges.len() - 1]));
    }
}

/// A sphere of one tile, or of none, has no pairs: its empty table gives a graph
/// in which no tile has a neighbour.
pub proof fn lemma_no_pairs(nodes: nat, v: usize)
    requires
        nodes <= 1,
    ensures
        build_failure(nodes, Seq::empty()).is_none(),
        min_edges(nodes, Seq::empty()).len() == 0,
        neighbours(min_edges(nodes, Seq::empty()), v).len() == 0,
{
    let keys = Seq::<u64>::empty();
    lemma_node_pairs_len(nodes);
    lemma_ranking(nodes, keys);
    assert(nodes * (nodes - 1) == 0) by (nonlinear_arith)
        requires
            nodes <= 1,
    ;
    assert(first_non_finite(keys).is_none());
    assert(table_failure(nodes, keys).is_none());
    assert(min_edges(nodes, keys).len() == 0);
}

} // verus!
