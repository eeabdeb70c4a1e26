use crate::adjacency::adj_array::AdjArray;
use crate::adjacency::error::BuildError;
use crate::adjacency::graph::build_failure;
use crate::adjacency::graph::create_min_edges;
use crate::adjacency::graph::graph_of;
use crate::adjacency::graph::lists;
use crate::adjacency::graph::min_edges;
use crate::adjacency::graph::well_formed_graph;
use fxhash::FxHashMap;
use vstd::prelude::*;

verus! {

/// The largest tile count that a registry takes.
pub const NODES_MAX: usize = 65535;

/// The hasher of `fxhash`, of which nothing but its name is used here.
#[verifier::external_type_specification]
#[verifier::external_body]
pub struct ExFxHasher(fxhash::FxHasher);

/// The hasher builder of std that `fxhash` makes its maps with.
#[verifier::external_type_specification]
#[verifier::external_body]
#[verifier::reject_recursive_types(H)]
pub struct ExBuildHasherDefault<H>(std::hash::BuildHasherDefault<H>);

/// The neighbour graphs that were built so far, one per tile count.
///
/// A graph is built when its tile count is first registered, from the table of
/// squared distances that is handed in with it, and kept until `clear`. Reading is
/// apart from building: `get` takes registered tile counts only, and `lookup`
/// answers `None` for any other.
#[derive(Debug)]
pub struct Adjacency {
    map: FxHashMap<u16, Vec<AdjArray>>,
}

/// `FxHashMap::default` of `fxhash`: a map without entries.
#[verifier::external_body]
fn map_new() -> (map: FxHashMap<u16, Vec<AdjArray>>)
    ensures
        forall|key: u16| !map@.contains_key(key),
{
    FxHashMap::default()
}

/// `HashMap::clear` on a map of `fxhash`: afterwards the map has no entries.
#[verifier::external_body]
fn map_clear(map: &mut FxHashMap<u16, Vec<AdjArray>>)
    ensures
        forall|key: u16| !final(map)@.contains_key(key),
{
    map.clear();
}

/// `HashMap::get` on a map of `fxhash`: the value stored under the key, if there
/// is one.
#[verifier::external_body]
fn map_get(map: &FxHashMap<u16, Vec<AdjArray>>, key: u16) -> (value: Option<&Vec<AdjArray>>)
    ensures
        match value {
            Some(graph) => map@.contains_key(key) && *graph == map@[key],
            None => !map@.contains_key(key),
        },
{
    map.get(&key)
}

/// `HashMap::insert` on a map of `fxhash`: afterwards the key holds the value, and
/// every other key what it held before.
#[verifier::external_body]
fn map_insert(map: &mut FxHashMap<u16, Vec<AdjArray>>, key: u16, value: Vec<AdjArray>)
    ensures
        final(map)@ == old(map)@.insert(key, value),
{
    map.insert(key, value);
}

/// `HashMap::clone` on a map of `fxhash`: a map with the same keys, each with a
/// graph of the same lists.
#[verifier::external_body]
fn map_clone(map: &FxHashMap<u16, Vec<AdjArray>>) -> (copy: FxHashMap<u16, Vec<AdjArray>>)
    ensures
        forall|key: u16| copy@.contains_key(key) == map@.contains_key(key),
        forall|key: u16| map@.contains_key(key) ==> (#[trigger] copy@[key])@ == map@[key]@,
{
    map.clone()
}

/// The registry after `nodes` was registered with the given distance table:
/// a graph is added where the tile count is in range and new, and the table gives
/// a graph; in every other case nothing changes.
pub open spec fn after_register(
    graphs: Map<usize, Seq<Seq<usize>>>,
    nodes: usize,
    keys: Seq<u64>,
) -> Map<usize, Seq<Seq<usize>>> {
    if nodes > NODES_MAX || graphs.contains_key(nodes) || build_failure(nodes as nat, keys).is_some() {
        graphs
    } else {
        graphs.insert(nodes, graph_of(nodes as nat, min_edges(nodes as nat, keys)))
    }
}

/// What registering `nodes` with the given distance table answers.
pub open spec fn register_result(
    graphs: Map<usize, Seq<Seq<usize>>>,
    nodes: usize,
    keys: Seq<u64>,
) -> Result<(), BuildError> {
    if nodes > NODES_MAX {
        Err(BuildError::TooManyNodes { nodes })
    } else if graphs.contains_key(nodes) {
        Ok(())
    } else {
        match build_failure(nodes as nat, keys) {
            Some(e) => Err(e),
            None => Ok(()),
        }
    }
}

/// A tile count is built at most once: after a registration that succeeded,
/// registering the same tile count again, with whatever table, changes nothing and
/// succeeds, so that every later lookup finds the graph of the first table.
pub proof fn lemma_register_once(
    graphs: Map<usize, Seq<Seq<usize>>>,
    nodes: usize,
    keys: Seq<u64>,
    again: Seq<u64>,
)
    requires
        register_result(graphs, nodes, keys).is_ok(),
    ensures
        after_register(graphs, nodes, keys).contains_key(nodes),
        after_register(after_register(graphs, nodes, keys), nodes, again) == after_register(
            graphs,
            nodes,
            keys,
        ),
        register_result(after_register(graphs, nodes, keys), nodes, again).is_ok(),
{
}

/// Registering one tile count leaves the graph of every other tile count as it was.
pub proof fn lemma_register_others(
    graphs: Map<usize, Seq<Seq<usize>>>,
    nodes: usize,
    keys: Seq<u64>,
    other: usize,
)
    requires
        other != nodes,
    ensures
        after_register(graphs, nodes, keys).contains_key(other) == graphs.contains_key(other),
        graphs.contains_key(other) ==> after_register(graphs, nodes, keys)[other] == graphs[other],
{
}

impl View for Adjacency {
    type V = Map<usize, Seq<Seq<usize>>>;

    /// The neighbour lists of each registered tile count.
    closed spec fn view(&self) -> Map<usize, Seq<Seq<usize>>> {
        Map::new(
            |nodes: usize| nodes <= NODES_MAX && self.map@.contains_key(nodes as u16),
            |nodes: usize| lists(self.map@[nodes as u16]@),
        )
    }
}

impl Adjacency {
    /// Every stored graph has one list per node of its tile count and is well formed.
    pub closed spec fn wf(&self) -> bool {
        forall|key: u16| #[trigger]
            self.map@.contains_key(key) ==> self.map@[key]@.len() == key && well_formed_graph(
                self.map@[key]@,
            )
    }

    /// A registry without graphs.
    pub fn new() -> (registry: Adjacency)
        ensures
            registry.wf(),
            registry@ == Map::<usize, Seq<Seq<usize>>>::empty(),
    {
        let registry = Adjacency { map: map_new() };
        assert(registry@ =~= Map::<usize, Seq<Seq<usize>>>::empty());
        registry
    }

    /// Discards every graph.
    pub fn clear(&mut self)
        ensures
            final(self).wf(),
            final(self)@ == Map::<usize, Seq<Seq<usize>>>::empty(),
    {
        map_clear(&mut self.map);
        assert(self@ =~= Map::<usize, Seq<Seq<usize>>>::empty());
    }

    /// Builds the graph of `nodes` tiles from the table of their squared distances
    /// and keeps it, unless the registry holds a graph for `nodes` already: then
    /// the table is not looked at. A build that fails leaves the registry as it
    /// was, and a later call builds anew.
    ///
    /// The table holds one key per pair of tiles `(i, j)`, `i < j`, by ascending
    /// `(i, j)`; a key is the bit pattern of the squared distance, a non-negative
    /// finite binary64 number.
    pub fn register(&mut self, nodes: usize, keys: &Vec<u64>) -> (r: Result<(), BuildError>)
        requires
            old(self).wf(),
        ensures
            final(self).wf(),
            final(self)@ == after_register(old(self)@, nodes, keys@),
            r == register_result(old(self)@, nodes, keys@),
    {
        if nodes > NODES_MAX {
            return Err(BuildError::TooManyNodes { nodes });
        }
        let key: u16 = nodes as u16;
        if map_get(&self.map, key).is_some() {
            return Ok(());
        }
        match create_min_edges(key, keys) {
            Err(e) => Err(e),
            Ok(graph) => {
                map_insert(&mut self.map, key, graph);
                assert(self@ =~= after_register(old(self)@, nodes, keys@));
                Ok(())
            },
        }
    }

    /// The graph of `nodes` tiles, if one was registered.
    pub fn lookup(&self, nodes: usize) -> (r: Option<&Vec<AdjArray>>)
        requires
            self.wf(),
        ensures
            r.is_some() == self@.contains_key(nodes),
            r matches Some(graph) ==> {
                &&& lists(graph@) == self@[nodes]
                &&& graph@.len() == nodes
                &&& well_formed_graph(graph@)
            },
    {
        if nodes > NODES_MAX {
            return None;
        }
        map_get(&self.map, nodes as u16)
    }

    /// The graph of `nodes` tiles, which must have been registered.
    pub fn get(&self, nodes: usize) -> (graph: &Vec<AdjArray>)
        requires
            self.wf(),
            self@.contains_key(nodes),
        ensures
            lists(graph@) == self@[nodes],
            graph@.len() == nodes,
            well_formed_graph(graph@),
    {
        let found = self.lookup(nodes);
        found.unwrap()
    }
}

impl Clone for Adjacency {
    fn clone(&self) -> (copy: Adjacency)
        ensures
            copy@ == self@,
            self.wf() ==> copy.wf(),
    {
        let copy = Adjacency { map: map_clone(&self.map) };
        assert(copy@ =~= self@);
        copy
    }
}

impl Default for Adjacency {
    fn default() -> (registry: Adjacency)
        ensures
            registry.wf(),
            registry@ == Map::<usize, Seq<Seq<usize>>>::empty(),
    {
        Adjacency::new()
    }
}

} // verus!
