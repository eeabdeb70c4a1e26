use crate::adjacency::error::BuildError;
use vstd::prelude::*;
use vstd::relations::sorted_by;
use vstd::relations::total_ordering;
use vstd::seq_lib::lemma_sorted_unique;

verus! {

/// A squared distance and the two nodes it lies between, the smaller index first.
///
/// The distance is held as its key: the bit pattern of a non-negative finite
/// binary64 number, read as an integer. Such keys order as the numbers do.
pub type Edge = (u64, (usize, usize));

/// Keys below this bound stand for non-negative finite distances; the bound itself
/// is the pattern of positive infinity.
pub const KEY_LIMIT: u64 = 0x7FF0_0000_0000_0000;

/// The pairs `(i, j)` with `i < j < hi`, for one `i`, by ascending `j`.
pub open spec fn row_pairs(i: nat, hi: nat) -> Seq<(usize, usize)>
    decreases hi,
{
    if hi <= i + 1 {
        Seq::empty()
    } else {
        row_pairs(i, (hi - 1) as nat).push((i as usize, (hi - 1) as usize))
    }
}

/// The pairs `(i, j)` with `i < upto` and `i < j < nodes`, by ascending `(i, j)`.
pub open spec fn pairs_upto(nodes: nat, upto: nat) -> Seq<(usize, usize)>
    decreases upto,
{
    if upto == 0 {
        Seq::empty()
    } else {
        pairs_upto(nodes, (upto - 1) as nat) + row_pairs((upto - 1) as nat, nodes)
    }
}

/// Every unordered pair of distinct nodes once, by ascending `(i, j)`. A distance
/// table lists its keys in this order.
pub open spec fn node_pairs(nodes: nat) -> Seq<(usize, usize)> {
    pairs_upto(nodes, nodes)
}

/// How many unordered pairs of distinct nodes there are.
pub open spec fn pair_count(nodes: nat) -> nat {
    (nodes * (nodes - 1) / 2) as nat
}

/// The pairs of `node_pairs`, each with its key from the table.
pub open spec fn keyed_pairs(nodes: nat, keys: Seq<u64>) -> Seq<Edge> {
    Seq::new(node_pairs(nodes).len(), |k: int| (keys[k], node_pairs(nodes)[k]))
}

/// Where the key of the pair `(i, j)` stands in a distance table.
pub open spec fn pair_position(nodes: nat, i: nat, j: nat) -> nat {
    (i * (2 * nodes - i - 1) / 2 + (j - i - 1)) as nat
}

/// The order of the ranking: by key, then by the first node, then by the second.
pub open spec fn edge_leq(a: Edge, b: Edge) -> bool {
    a.0 < b.0 || (a.0 == b.0 && (a.1.0 < b.1.0 || (a.1.0 == b.1.0 && a.1.1 <= b.1.1)))
}

/// The pairs of nodes from the closest to the farthest.
pub open spec fn ranking(nodes: nat, keys: Seq<u64>) -> Seq<Edge> {
    keyed_pairs(nodes, keys).sort_by(|a: Edge, b: Edge| edge_leq(a, b))
}

/// A table is valid for `nodes` when it has one finite key per pair.
pub open spec fn valid_table(nodes: nat, keys: Seq<u64>) -> bool {
    &&& keys.len() == pair_count(nodes)
    &&& forall|k: int| 0 <= k < keys.len() ==> #[trigger] keys[k] < KEY_LIMIT
}

/// The position of the first key that is no finite distance.
pub open spec fn first_non_finite(keys: Seq<u64>) -> Option<usize>
    decreases keys.len(),
{
    if keys.len() == 0 {
        None
    } else if first_non_finite(keys.drop_last()).is_some() {
        first_non_finite(keys.drop_last())
    } else if keys.last() >= KEY_LIMIT {
        Some((keys.len() - 1) as usize)
    } else {
        None
    }
}

/// What is wrong with a table for `nodes` nodes, if anything: a wrong number of
/// keys, or else the first key that is no finite distance.
pub open spec fn table_failure(nodes: nat, keys: Seq<u64>) -> Option<BuildError> {
    if keys.len() != pair_count(nodes) {
        Some(BuildError::PairCount { expected: pair_count(nodes) as u64, found: keys.len() as usize })
    } else {
        match first_non_finite(keys) {
            Some(position) => Some(BuildError::NonFinite { position }),
            None => None,
        }
    }
}

/// Closer pairs stand first; pairs at the same distance stand by ascending `(i, j)`.
pub open spec fn ascending(s: Seq<Edge>) -> bool {
    forall|a: int, b: int| 0 <= a < b < s.len() ==> edge_leq(#[trigger] s[a], #[trigger] s[b])
}

/// Sorts the edges with `slice::sort` of std, which orders tuples of integers
/// by their first component, then by the next: afterwards the vector holds the
/// same edges as before, each as often as before, in ascending order.
#[verifier::external_body]
fn sort_edges(edges: &mut Vec<Edge>)
    ensures
        final(edges)@.to_multiset() == old(edges)@.to_multiset(),
        ascending(final(edges)@),
{
    edges.sort();
}

/// The number of pairs of `nodes` nodes.
pub fn count_pairs(nodes: u16) -> (n: u64)
    ensures
        n == pair_count(nodes as nat),
{
    if nodes == 0 {
        0
    } else {
        let a: u64 = nodes as u64;
        assert(a * (a - 1) <= 65535 * 65534) by (nonlinear_arith)
            requires
                1 <= a <= 65535,
        ;
        a * (a - 1) / 2
    }
}

/// Pairs every key of the table with its two nodes and orders the pairs from the
/// closest to the farthest; pairs at the same distance stand by ascending `(i, j)`.
///
/// Fails when the table has not one key per pair, and else when a key is not a
/// finite distance; the error then names the first such key.
pub fn rank_pairs(nodes: u16, keys: &Vec<u64>) -> (r: Result<Vec<Edge>, BuildError>)
    ensures
        match table_failure(nodes as nat, keys@) {
            Some(e) => r == Err::<Vec<Edge>, BuildError>(e),
            None => r.is_ok() && r.unwrap()@ == ranking(nodes as nat, keys@),
        },
        r.is_ok() <==> valid_table(nodes as nat, keys@),
{
    let expected: u64 = count_pairs(nodes);
    let found: usize = keys.len();
    proof {
        lemma_table_failure(nodes as nat, keys@);
    }
    if found as u64 != expected {
        return Err(BuildError::PairCount { expected, found });
    }
    let n: usize = nodes as usize;
    let mut edges: Vec<Edge> = Vec::new();
    let mut i: usize = 0;
    proof {
        lemma_node_pairs_len(n as nat);
    }
    while i < n
        invariant
            n == nodes,
            i <= n,
            keys@.len() == node_pairs(n as nat).len(),
            keys@.len() == pair_count(nodes as nat),
            keys@.len() <= usize::MAX,
            edges@.len() == pairs_upto(n as nat, i as nat).len(),
            edges@.len() <= keys@.len(),
            forall|k: int|
                0 <= k < edges@.len() ==> #[trigger] edges@[k] == (
                    keys@[k],
                    pairs_upto(n as nat, i as nat)[k],
                ),
            forall|k: int| 0 <= k < edges@.len() ==> #[trigger] keys@[k] < KEY_LIMIT,
        decreases n - i,
    {
        let mut j: usize = i + 1;
        let ghost front = pairs_upto(n as nat, i as nat);
        proof {
            lemma_row_pairs(i as nat, n as nat);
            lemma_pairs_upto_len(n as nat, i as nat);
            lemma_pairs_upto_len(n as nat, (i + 1) as nat);
            lemma_pairs_upto_len(n as nat, n as nat);
            lemma_pairs_grow(n as nat, (i + 1) as nat, n as nat);
        }
        while j < n
            invariant
                n == nodes,
                i < n,
                i + 1 <= j <= n,
                front == pairs_upto(n as nat, i as nat),
                keys@.len() == node_pairs(n as nat).len(),
            keys@.len() == pair_count(nodes as nat),
            keys@.len() <= usize::MAX,
                row_pairs(i as nat, n as nat).len() == n - i - 1,
                front.len() + (n - i - 1) == pairs_upto(n as nat, (i + 1) as nat).len(),
                pairs_upto(n as nat, (i + 1) as nat).len() <= keys@.len(),
                edges@.len() == front.len() + (j - i - 1),
                forall|k: int|
                    0 <= k < edges@.len() ==> #[trigger] edges@[k] == (
                        keys@[k],
                        (front + row_pairs(i as nat, n as nat))[k],
                    ),
                forall|k: int| 0 <= k < edges@.len() ==> #[trigger] keys@[k] < KEY_LIMIT,
            decreases n - j,
        {
            let position: usize = edges.len();
            let key: u64 = keys[position];
            if key >= KEY_LIMIT {
                proof {
                    lemma_first_non_finite(keys@);
                }
                return Err(BuildError::NonFinite { position });
            }
            proof {
                lemma_row_pairs(i as nat, n as nat);
                assert((front + row_pairs(i as nat, n as nat))[position as int] == row_pairs(
                    i as nat,
                    n as nat,
                )[j - i - 1]);
            }
            edges.push((key, (i, j)));
            j += 1;
        }
        i += 1;
    }
    proof {
        let base = keyed_pairs(n as nat, keys@);
        assert(edges@ =~= base);
        lemma_first_non_finite(keys@);
    }
    let ghost base = edges@;
    sort_edges(&mut edges);
    proof {
        lemma_ranking_unique(n as nat, keys@, edges@);
    }
    Ok(edges)
}

/// Listing more rows only appends pairs.
pub proof fn lemma_pairs_grow(nodes: nat, from: nat, upto: nat)
    requires
        from <= upto <= nodes <= usize::MAX,
    ensures
        pairs_upto(nodes, from).len() <= pairs_upto(nodes, upto).len(),
        forall|k: int|
            0 <= k < pairs_upto(nodes, from).len() ==> pairs_upto(nodes, from)[k]
                == #[trigger] pairs_upto(nodes, upto)[k],
    decreases upto,
{
    if from < upto {
        lemma_pairs_grow(nodes, from, (upto - 1) as nat);
    }
}

/// The table lists the pairs row by row: the pair `(i, j)` stands after the rows
/// of all smaller `i`, and in its row after the pairs of all smaller `j`.
pub proof fn lemma_pair_position(nodes: nat, i: nat, j: nat)
    requires
        i < j < nodes <= usize::MAX,
    ensures
        pair_position(nodes, i, j) < node_pairs(nodes).len(),
        node_pairs(nodes)[pair_position(nodes, i, j) as int] == (i as usize, j as usize),
{
    let before = pairs_upto(nodes, i);
    let row = row_pairs(i, nodes);
    let with_row = pairs_upto(nodes, i + 1);
    lemma_pairs_upto_len(nodes, i);
    lemma_row_pairs(i, nodes);
    lemma_pairs_grow(nodes, i + 1, nodes);
    assert(with_row == before + row);
    assert(with_row[before.len() + (j - i - 1)] == row[j - i - 1]);
}

/// `first_non_finite` names a key that is not finite and that only finite keys
/// precede, and names none exactly where every key is finite.
pub proof fn lemma_first_non_finite(keys: Seq<u64>)
    requires
        keys.len() <= usize::MAX,
    ensures
        first_non_finite(keys) matches Some(p) ==> p < keys.len() && keys[p as int] >= KEY_LIMIT
            && forall|k: int| 0 <= k < p ==> #[trigger] keys[k] < KEY_LIMIT,
        first_non_finite(keys).is_none() <==> forall|k: int|
            0 <= k < keys.len() ==> #[trigger] keys[k] < KEY_LIMIT,
    decreases keys.len(),
{
    if keys.len() > 0 {
        let front = keys.drop_last();
        lemma_first_non_finite(front);
        if first_non_finite(front).is_some() {
            let p = first_non_finite(front).unwrap();
            assert(front[p as int] == keys[p as int]);
            assert forall|k: int| 0 <= k < p implies #[trigger] keys[k] < KEY_LIMIT by {
                assert(front[k] == keys[k]);
            }
        } else {
            assert forall|k: int| 0 <= k < front.len() implies #[trigger] keys[k] < KEY_LIMIT by {
                assert(front[k] == keys[k]);
            }
        }
    }
}

/// A table is valid exactly where nothing is wrong with it.
pub proof fn lemma_table_failure(nodes: nat, keys: Seq<u64>)
    requires
        keys.len() <= usize::MAX,
    ensures
        valid_table(nodes, keys) <==> table_failure(nodes, keys).is_none(),
{
    lemma_first_non_finite(keys);
}

pub proof fn lemma_row_pairs(i: nat, hi: nat)
    requires
        hi <= usize::MAX,
    ensures
        row_pairs(i, hi).len() == if hi <= i + 1 { 0 } else { hi - i - 1 },
        forall|k: int| 0 <= k < row_pairs(i, hi).len() ==> #[trigger] row_pairs(i, hi)[k] == (
            i as usize,
            (i + 1 + k) as usize,
        ),
    decreases hi,
{
    if hi > i + 1 {
        lemma_row_pairs(i, (hi - 1) as nat);
    }
}

/// There are `nodes * (nodes - 1) / 2` pairs.
pub proof fn lemma_pairs_upto_len(nodes: nat, upto: nat)
    requires
        upto <= nodes <= usize::MAX,
    ensures
        2 * pairs_upto(nodes, upto).len() == upto * (2 * nodes - upto - 1),
    decreases upto,
{
    if upto > 0 {
        let i = (upto - 1) as nat;
        lemma_pairs_upto_len(nodes, i);
        lemma_row_pairs(i, nodes);
        assert(i * (2 * nodes - i - 1) + 2 * (nodes - i - 1) == upto * (2 * nodes - upto - 1))
            by (nonlinear_arith)
            requires
                upto == i + 1,
        ;
    } else {
        assert(upto * (2 * nodes - upto - 1) == 0) by (nonlinear_arith)
            requires
                upto == 0,
        ;
    }
}

pub proof fn lemma_node_pairs_len(nodes: nat)
    requires
        nodes <= usize::MAX,
    ensures
        node_pairs(nodes).len() == pair_count(nodes),
{
    lemma_pairs_upto_len(nodes, nodes);
    assert(nodes * (2 * nodes - nodes - 1) == nodes * (nodes - 1)) by (nonlinear_arith);
}

/// Every listed pair names two nodes of the graph, the smaller first, and no pair
/// is listed twice.
pub proof fn lemma_pairs_upto_valid(nodes: nat, upto: nat)
    requires
        upto <= nodes <= usize::MAX,
    ensures
        forall|k: int|
            0 <= k < pairs_upto(nodes, upto).len() ==> {
                let p = #[trigger] pairs_upto(nodes, upto)[k];
                p.0 < p.1 && p.1 < nodes && p.0 < upto
            },
        pairs_upto(nodes, upto).no_duplicates(),
    decreases upto,
{
    if upto > 0 {
        let i = (upto - 1) as nat;
        lemma_pairs_upto_valid(nodes, i);
        lemma_row_pairs(i, nodes);
        let front = pairs_upto(nodes, i);
        let row = row_pairs(i, nodes);
        let all = pairs_upto(nodes, upto);
        assert forall|a: int, b: int| 0 <= a < b < all.len() implies all[a] != all[b] by {
            if b < front.len() {
                assert(all[a] == front[a] && all[b] == front[b]);
            } else if a < front.len() {
                assert(all[a] == front[a] && all[b] == row[b - front.len()]);
            } else {
                assert(all[a] == row[a - front.len()] && all[b] == row[b - front.len()]);
            }
        }
        assert forall|k: int| 0 <= k < all.len() implies ({
            let p = #[trigger] all[k];
            p.0 < p.1 && p.1 < nodes && p.0 < upto
        }) by {
            if k < front.len() {
                assert(all[k] == front[k]);
            } else {
                assert(all[k] == row[k - front.len()]);
            }
        }
    }
}

/// The order of the ranking is total.
pub proof fn lemma_edge_leq_total()
    ensures
        total_ordering(|a: Edge, b: Edge| edge_leq(a, b)),
{
    let leq = |a: Edge, b: Edge| edge_leq(a, b);
    assert forall|x: Edge, y: Edge| #[trigger] leq(x, y) && #[trigger] leq(y, x) implies x == y by {
        assert(x.0 == y.0 && x.1.0 == y.1.0 && x.1.1 == y.1.1);
    }
}

/// The ranking holds the same pairs as the table, in ascending order.
pub proof fn lemma_ranking(nodes: nat, keys: Seq<u64>)
    ensures
        ranking(nodes, keys).to_multiset() == keyed_pairs(nodes, keys).to_multiset(),
        ranking(nodes, keys).len() == node_pairs(nodes).len(),
        ascending(ranking(nodes, keys)),
{
    let leq = |a: Edge, b: Edge| edge_leq(a, b);
    let base = keyed_pairs(nodes, keys);
    let r = ranking(nodes, keys);
    lemma_edge_leq_total();
    base.lemma_sort_by_ensures(leq);
    r.to_multiset_ensures();
    base.to_multiset_ensures();
    assert forall|a: int, b: int| 0 <= a < b < r.len() implies edge_leq(
        #[trigger] r[a],
        #[trigger] r[b],
    ) by {
        assert(leq(r[a], r[b]));
    }
}

/// The ranking is the only ascending sequence that holds the pairs of the table.
pub proof fn lemma_ranking_unique(nodes: nat, keys: Seq<u64>, s: Seq<Edge>)
    requires
        s.to_multiset() == keyed_pairs(nodes, keys).to_multiset(),
        ascending(s),
    ensures
        s == ranking(nodes, keys),
{
    let leq = |a: Edge, b: Edge| edge_leq(a, b);
    let r = ranking(nodes, keys);
    lemma_edge_leq_total();
    lemma_ranking(nodes, keys);
    assert forall|a: int, b: int| 0 <= a < b < s.len() implies #[trigger] leq(s[a], s[b]) by {
        assert(edge_leq(s[a], s[b]));
    }
    assert forall|a: int, b: int| 0 <= a < b < r.len() implies #[trigger] leq(r[a], r[b]) by {
        assert(edge_leq(r[a], r[b]));
    }
    lemma_sorted_unique(s, r, leq);
}

} // verus!
