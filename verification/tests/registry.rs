use planetary_dynamics::adjacency::get_tile_count;
use planetary_dynamics::adjacency::Adjacency;
use planetary_dynamics::adjacency::BuildError;
use planetary_dynamics::adjacency::Node;

fn lists(adjacency: &Adjacency, nodes: usize) -> Vec<Vec<usize>> {
    adjacency
        .get(nodes)
        .iter()
        .map(|list| list.to_vec())
        .collect()
}

#[test]
fn new_registry_is_empty() {
    let adjacency = Adjacency::default();
    assert!(adjacency.lookup(0).is_none());
    assert!(adjacency.lookup(4).is_none());
    assert!(Adjacency::new().lookup(96).is_none());
}

#[test]
fn register_builds_the_graph() {
    let mut adjacency = Adjacency::default();
    assert_eq!(Ok(()), adjacency.register(4, &vec![5, 3, 9, 3, 1, 7]));
    assert_eq!(
        vec![vec![2, 1, 3], vec![3, 2, 0], vec![0, 1, 3], vec![1, 2, 0]],
        lists(&adjacency, 4)
    );
    assert!(adjacency.lookup(4).is_some());
    assert!(adjacency.lookup(3).is_none());
    assert!(adjacency.lookup(65536 + 4).is_none());
}

#[test]
fn register_builds_once() {
    let mut adjacency = Adjacency::default();
    assert_eq!(Ok(()), adjacency.register(4, &vec![5, 3, 9, 3, 1, 7]));
    let first = adjacency.get(4).clone();
    let first_at = adjacency.get(4).as_ptr();
    assert_eq!(Ok(()), adjacency.register(4, &vec![1, 2, 3, 4, 5, 6]));
    assert_eq!(Ok(()), adjacency.register(4, &vec![]));
    assert_eq!(&first, adjacency.get(4));
    assert_eq!(first_at, adjacency.get(4).as_ptr());
    assert!(std::ptr::eq(adjacency.get(4), adjacency.get(4)));
    assert!(std::ptr::eq(adjacency.get(4), adjacency.lookup(4).unwrap()));
}

#[test]
fn register_keeps_other_graphs() {
    let mut adjacency = Adjacency::default();
    assert_eq!(Ok(()), adjacency.register(2, &vec![8]));
    assert_eq!(Ok(()), adjacency.register(3, &vec![3, 2, 1]));
    assert_eq!(Ok(()), adjacency.register(0, &vec![]));
    assert_eq!(vec![vec![1], vec![0]], lists(&adjacency, 2));
    assert_eq!(vec![vec![2, 1], vec![2, 0], vec![1, 0]], lists(&adjacency, 3));
    assert_eq!(Vec::<Vec<usize>>::new(), lists(&adjacency, 0));
}

#[test]
fn clear_discards_every_graph() {
    let mut adjacency = Adjacency::default();
    assert_eq!(Ok(()), adjacency.register(2, &vec![8]));
    assert_eq!(Ok(()), adjacency.register(3, &vec![3, 2, 1]));
    adjacency.clear();
    assert!(adjacency.lookup(2).is_none());
    assert!(adjacency.lookup(3).is_none());
    assert_eq!(Ok(()), adjacency.register(3, &vec![1, 2, 3]));
    assert_eq!(vec![vec![1, 2], vec![0, 2], vec![0, 1]], lists(&adjacency, 3));
}

#[test]
fn clone_keeps_every_graph() {
    let mut adjacency = Adjacency::default();
    assert_eq!(Ok(()), adjacency.register(3, &vec![3, 2, 1]));
    let mut copy = adjacency.clone();
    assert_eq!(lists(&adjacency, 3), lists(&copy, 3));
    assert_eq!(Ok(()), copy.register(2, &vec![8]));
    assert!(copy.lookup(2).is_some());
    assert!(adjacency.lookup(2).is_none());
}

#[test]
fn failed_builds_are_not_kept() {
    let mut adjacency = Adjacency::default();
    assert_eq!(
        Err(BuildError::PairCount {
            expected: 3,
            found: 2
        }),
        adjacency.register(3, &vec![1, 2])
    );
    assert!(adjacency.lookup(3).is_none());
    assert_eq!(
        Err(BuildError::NonFinite { position: 1 }),
        adjacency.register(3, &vec![1, u64::MAX, 2])
    );
    assert!(adjacency.lookup(3).is_none());
    let crowded: Vec<u64> = (0..66).collect();
    assert_eq!(
        Err(BuildError::CapacityOverflow { node: 0 }),
        adjacency.register(12, &crowded)
    );
    assert!(adjacency.lookup(12).is_none());
    assert_eq!(Ok(()), adjacency.register(3, &vec![1, 2, 3]));
    assert_eq!(vec![vec![1, 2], vec![0, 2], vec![0, 1]], lists(&adjacency, 3));
}

#[test]
fn register_rejects_counts_beyond_the_index_width() {
    let mut adjacency = Adjacency::default();
    assert_eq!(
        Err(BuildError::TooManyNodes { nodes: 65536 }),
        adjacency.register(65536, &vec![])
    );
    assert_eq!(
        Err(BuildError::TooManyNodes { nodes: usize::MAX }),
        adjacency.register(usize::MAX, &vec![])
    );
    assert!(adjacency.lookup(65536).is_none());
}

#[test]
fn tile_count_of_known_bodies() {
    assert_eq!(96, get_tile_count(6_371_000));
    assert_eq!(24, get_tile_count(1_737_400));
    assert_eq!(36, get_tile_count(2_439_700));
    assert_eq!(48, get_tile_count(3_389_500));
}

#[test]
fn tile_count_rounds_to_whole_steps_and_is_capped() {
    assert_eq!(0, get_tile_count(0));
    assert_eq!(0, get_tile_count(398_187));
    assert_eq!(12, get_tile_count(398_188));
    assert_eq!(12, get_tile_count(1_194_562));
    assert_eq!(24, get_tile_count(1_194_563));
    assert_eq!(1008, get_tile_count(67_000_000));
    assert_eq!(1020, get_tile_count(69_911_000));
    assert_eq!(1020, get_tile_count(637_100_000));
    assert_eq!(1020, get_tile_count(u64::MAX));
}

#[test]
fn node_fraction_is_the_middle_of_its_share() {
    let fraction = Node::new(1, 4).fraction();
    assert_eq!(3, fraction.numerator());
    assert_eq!(8, fraction.denominator());
    let first = Node::new(0, 65535).fraction();
    assert_eq!((1, 131070), (first.numerator(), first.denominator()));
    let last = Node::new(65534, 65535).fraction();
    assert_eq!((131069, 131070), (last.numerator(), last.denominator()));
    assert_eq!(7, Node::new(7, 9).index());
    assert_eq!(9, Node::new(7, 9).nodes());
}
