use planetary_dynamics::adjacency::graph::create_min_edges;
use planetary_dynamics::adjacency::AdjArray;
use planetary_dynamics::adjacency::Adjacency;
use planetary_dynamics::adjacency::Node;

fn rotations(nodes: u16) -> f64 {
    (nodes as f64 - 0.25).sqrt() * 2.0
}

fn fraction(index: u16, nodes: u16) -> f64 {
    let fraction = Node::new(index, nodes).fraction();
    fraction.numerator() as f64 / fraction.denominator() as f64
}

fn position(index: u16, nodes: u16, rotations: f64) -> [f64; 3] {
    let phi = (1.0 - 2.0 * fraction(index, nodes)).acos();
    let theta = phi * rotations;
    [theta.cos() * phi.sin(), theta.sin() * phi.sin(), phi.cos()]
}

fn distance_keys(nodes: u16) -> Vec<u64> {
    let rotations = rotations(nodes);
    let points: Vec<[f64; 3]> = (0..nodes)
        .map(|index| position(index, nodes, rotations))
        .collect();
    let mut keys = Vec::new();
    for (i, p) in points.iter().enumerate() {
        for q in points.iter().skip(i + 1) {
            let d = [p[0] - q[0], p[1] - q[1], p[2] - q[2]];
            let squared = d[0] * d[0] + d[1] * d[1] + d[2] * d[2];
            assert!(squared.is_finite());
            keys.push(squared.to_bits());
        }
    }
    keys
}

fn build(nodes: u16) -> Vec<AdjArray> {
    create_min_edges(nodes, &distance_keys(nodes)).unwrap()
}

fn assert_shared_neighbours(counts: std::ops::Range<u16>) {
    for count in counts {
        let adjacency = build(count);
        assert_eq!(count as usize, adjacency.len());
        for (node, adj) in adjacency.iter().enumerate() {
            for neighbour in adj.to_vec() {
                if neighbour > node {
                    let n_adj = adjacency[neighbour];
                    assert!(
                        adj.and(n_adj).len() >= 2,
                        "nodes: {},\n{}: {},\n{}: {},\n{}",
                        count,
                        node,
                        adjacency[node].to_string(),
                        neighbour,
                        adjacency[neighbour].to_string(),
                        n_adj.and(*adj).to_string()
                    );
                }
            }
        }
    }
}

#[test]
fn closed_unit_interval() {
    let fraction = fraction(1, 4);
    let phi = (1.0 - 2.0 * fraction).acos();
    let inv_phi = 0.5 * (1.0 - phi.cos());

    assert_eq!(fraction, inv_phi);
}

#[test]
fn unit_interval_round_trip() {
    for nodes in [1u16, 2, 5, 16, 96, 1023] {
        for index in 0..nodes {
            let fraction = fraction(index, nodes);
            let phi = (1.0 - 2.0 * fraction).acos();
            assert!((0.0..=std::f64::consts::PI).contains(&phi));
            let inv_phi = 0.5 * (1.0 - phi.cos());
            assert!((fraction - inv_phi).abs() < 1e-12);
        }
    }
}

#[test]
fn fraction_matches_the_midpoint_formula() {
    for nodes in [1u16, 2, 3, 7, 96, 1000, 65535] {
        for index in [0, nodes / 3, nodes / 2, nodes - 1] {
            assert_eq!(
                (index as f64 + 0.5) / nodes as f64,
                fraction(index, nodes)
            );
            assert!(fraction(index, nodes) > 0.0 && fraction(index, nodes) < 1.0);
        }
    }
}

#[test]
fn positions_lie_on_the_unit_sphere() {
    let rotations = rotations(96);
    for index in 0..96 {
        let p = position(index, 96, rotations);
        let length = (p[0] * p[0] + p[1] * p[1] + p[2] * p[2]).sqrt();
        assert!((length - 1.0).abs() < 1e-12);
        assert_eq!(p, position(index, 96, rotations));
    }
}

#[test]
fn built_graphs_are_symmetric_and_bounded() {
    for count in [2u16, 3, 7, 8, 16, 96, 250] {
        let graph = build(count);
        let edges: usize = graph.iter().map(|list| list.len()).sum();
        let pairs = count as usize * (count as usize - 1) / 2;
        assert_eq!(2 * pairs.min(count as usize * 61 / 20), edges);
        for (node, list) in graph.iter().enumerate() {
            assert!(list.len() <= 8);
            let values = list.to_vec();
            for (k, neighbour) in values.iter().enumerate() {
                assert!(*neighbour < count as usize);
                assert!(*neighbour != node);
                assert!(!values[..k].contains(neighbour));
                assert!(graph[*neighbour].contains(node));
            }
        }
    }
}

#[test]
fn registry_serves_the_built_graph() {
    let mut adjacency = Adjacency::default();
    assert_eq!(Ok(()), adjacency.register(96, &distance_keys(96)));
    assert_eq!(&build(96), adjacency.get(96));
    assert_eq!(Ok(()), adjacency.register(96, &distance_keys(24)));
    assert_eq!(&build(96), adjacency.get(96));
    assert_eq!(96, adjacency.get(96).len());
}

#[test]
fn shared_neighbours_16_to_512() {
    assert_shared_neighbours(16..512);
}

#[test]
fn shared_neighbours_512_to_645() {
    assert_shared_neighbours(512..645);
}

#[test]
fn shared_neighbours_645_to_738() {
    assert_shared_neighbours(645..738);
}

#[test]
fn shared_neighbours_738_to_813() {
    assert_shared_neighbours(738..813);
}

#[test]
fn shared_neighbours_813_to_875() {
    assert_shared_neighbours(813..875);
}

#[test]
fn shared_neighbours_875_to_930() {
    assert_shared_neighbours(875..930);
}

#[test]
fn shared_neighbours_930_to_979() {
    assert_shared_neighbours(930..979);
}

#[test]
fn shared_neighbours_979_to_1024() {
    assert_shared_neighbours(979..1024);
}
