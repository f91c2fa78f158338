use graphpart::arithmetic::Arithmetic;
use graphpart::coarsen::{coarsen, heavy_edge_matching_coarse};
use graphpart::double::Double;
use graphpart::error::Error;
use graphpart::hierarchy::coarsen_repeatedly;
use graphpart::matching::match_vertices;
use graphpart::matrix::SparseMatrix;
use graphpart::multilevel::{InitialPartitioner, MultiLevelPartitioner};
use graphpart::topology::Graph;
use graphpart::uncoarsen::partition_uncoarse;
use std::cell::Cell;

fn double(x: f64) -> Double {
    Double { bits: x.to_bits() }
}

fn float(d: Double) -> f64 {
    f64::from_bits(d.bits)
}

fn doubles(xs: &[f64]) -> Vec<Double> {
    xs.iter().map(|x| double(*x)).collect()
}

fn floats(ds: &[Double]) -> Vec<f64> {
    ds.iter().map(|d| float(*d)).collect()
}

fn plus(a: Double, b: Double) -> Double {
    double(float(a) + float(b))
}

fn matrix(entries: &[(usize, usize, i64)]) -> SparseMatrix {
    let mut m = SparseMatrix::new();
    for (row, col, weight) in entries {
        m.insert(*row, *col, *weight);
    }
    m
}

fn graph(entries: &[(usize, usize, i64)]) -> Graph {
    Graph::from_matrix(&matrix(entries)).unwrap()
}

fn imbalance(num_parts: usize, partition: &[usize], weights: &[f64]) -> f64 {
    let mut loads = vec![0.0; num_parts];
    for (part, weight) in partition.iter().zip(weights) {
        loads[*part] += weight;
    }
    let ideal = loads.iter().sum::<f64>() / num_parts as f64;
    loads
        .iter()
        .map(|load| (load - ideal) / ideal)
        .fold(f64::MIN, f64::max)
}

/// A grid of `side` times `side` vertices with edges of weight 1.
fn grid(side: usize) -> Graph {
    let mut entries = Vec::new();
    for y in 0..side {
        for x in 0..side {
            let v = y * side + x;
            if x + 1 < side {
                entries.push((v, v + 1, 1));
                entries.push((v + 1, v, 1));
            }
            if y + 1 < side {
                entries.push((v, v + side, 1));
                entries.push((v + side, v, 1));
            }
        }
    }
    entries.sort();
    graph(&entries)
}

#[test]
fn test_3_node_heavy_edge_matching_coarse() {
    let graph = graph(&[(0, 1, 5), (0, 2, 10), (1, 2, 15), (1, 0, 5), (2, 0, 10), (2, 1, 15)]);
    let weights = doubles(&[3.0, 4.0, 5.0]);
    let seed = Some(5);

    let (coarse_graph, vertex_mapping, weights_coarse_graph) =
        heavy_edge_matching_coarse(&graph, seed, &weights, plus).unwrap();

    assert_eq!(15, coarse_graph.get(0, 1).unwrap());
    assert_eq!(15, coarse_graph.get(1, 0).unwrap());

    assert!(coarse_graph.get(0, 0).is_none());
    assert!(coarse_graph.get(1, 1).is_none());

    assert_eq!(vertex_mapping[0], vec![1, 2]);
    assert_eq!(vertex_mapping[1], vec![0]);

    assert_eq!(floats(&weights_coarse_graph), vec![9.0, 3.0]);
}

fn pentagon() -> Graph {
    graph(&[
        (0, 1, 3),
        (1, 2, 5),
        (2, 3, 4),
        (3, 4, 6),
        (4, 0, 10),
        (1, 0, 3),
        (2, 1, 5),
        (3, 2, 4),
        (4, 3, 6),
        (0, 4, 10),
    ])
}

#[test]
fn test_5_node_heavy_edge_matching_coarse() {
    let graph = pentagon();
    let seed = Some(5);
    let weights = doubles(&[1.0, 2.0, 3.0, 4.0, 5.0]);

    let (coarse_graph, vertex_mapping, weights_coarse_graph) =
        heavy_edge_matching_coarse(&graph, seed, &weights, plus).unwrap();

    assert_eq!(6, coarse_graph.get(0, 1).unwrap());
    assert_eq!(6, coarse_graph.get(1, 0).unwrap());

    assert_eq!(3, coarse_graph.get(0, 2).unwrap());
    assert_eq!(3, coarse_graph.get(2, 0).unwrap());

    assert_eq!(5, coarse_graph.get(1, 2).unwrap());
    assert_eq!(5, coarse_graph.get(2, 1).unwrap());

    assert!(coarse_graph.get(0, 0).is_none());
    assert!(coarse_graph.get(1, 1).is_none());
    assert!(coarse_graph.get(2, 2).is_none());

    assert_eq!(vertex_mapping[0], vec![0, 4]);
    assert_eq!(vertex_mapping[1], vec![2, 3]);
    assert_eq!(vertex_mapping[2], vec![1]);

    assert_eq!(floats(&weights_coarse_graph), vec![6.0, 7.0, 2.0]);
}

#[test]
fn test_partition_uncoarse() {
    let vertex_mapping = vec![vec![0, 3], vec![2], vec![1]];
    let weights_coarse_graph = [5.0, 7.0, 6.0];
    let coarse_graph_partition = [1, 0, 0];
    let weights_uncoarse_graph = [2.0, 6.0, 7.0, 3.0];

    let uncoarsed_graph_partition = partition_uncoarse(&coarse_graph_partition, &vertex_mapping);

    assert_eq!(uncoarsed_graph_partition, vec![1, 0, 0, 1]);
    let epsilon = 1e9;
    let coarse_graph_imbalance = imbalance(2, &coarse_graph_partition, &weights_coarse_graph);
    let uncoarse_graph_imbalance =
        imbalance(2, &uncoarsed_graph_partition, &weights_uncoarse_graph);
    assert!((coarse_graph_imbalance - uncoarse_graph_imbalance).abs() < epsilon);
}

#[test]
fn the_order_decides_the_pairs() {
    let graph = pentagon();
    let weights = doubles(&[1.0, 2.0, 3.0, 4.0, 5.0]);

    let (coarse, mapping, coarse_weights) =
        coarsen(&graph, &[3, 1, 0, 2, 4], &weights, plus).unwrap();

    assert_eq!(mapping, vec![vec![3, 4], vec![1, 2], vec![0]]);
    assert_eq!(floats(&coarse_weights), vec![9.0, 5.0, 1.0]);
    assert_eq!(coarse.get(0, 1), Some(4));
    assert_eq!(coarse.get(0, 2), Some(10));
    assert_eq!(coarse.get(1, 2), Some(3));
    assert_eq!((coarse.rows(), coarse.cols()), (3, 3));
}

#[test]
fn the_first_of_equally_heavy_neighbors_is_the_partner() {
    let graph = graph(&[(0, 1, 4), (0, 2, 4), (1, 0, 4), (2, 0, 4)]);
    let (mapping, home) = match_vertices(&graph, &[0, 1, 2]);
    assert_eq!(mapping, vec![vec![0, 1], vec![2]]);
    assert_eq!(home, vec![Some(0), Some(0), Some(1)]);
}

#[test]
fn only_positive_weights_pair_vertices() {
    let graph = graph(&[(0, 1, -4), (1, 0, -4), (1, 2, 0), (2, 1, 0)]);
    let (mapping, _) = match_vertices(&graph, &[2, 1, 0]);
    assert_eq!(mapping, vec![vec![2], vec![1], vec![0]]);
}

#[test]
fn a_loop_pairs_a_vertex_with_itself() {
    let graph = graph(&[(0, 0, 9), (0, 1, 4), (1, 0, 4)]);
    let (mapping, _) = match_vertices(&graph, &[0, 1]);
    assert_eq!(mapping, vec![vec![0, 0], vec![1]]);
}

#[test]
fn a_last_group_without_edges_has_no_place_in_the_matrix() {
    let graph = graph(&[(0, 1, 4), (1, 0, 4)]);
    let weights = doubles(&[1.0, 1.0]);
    assert!(coarsen(&graph, &[0, 1], &weights, plus).is_none());
    assert!(heavy_edge_matching_coarse(&graph, Some(1), &weights, plus).is_none());
    assert!(heavy_edge_matching_coarse(&graph, None, &weights, plus).is_none());
}

#[test]
fn the_seed_decides_the_order() {
    let graph = grid(6);
    let weights = doubles(&[1.0; 36]);
    let first = heavy_edge_matching_coarse(&graph, Some(7), &weights, plus).unwrap();
    let second = heavy_edge_matching_coarse(&graph, Some(7), &weights, plus).unwrap();
    let third = heavy_edge_matching_coarse(&graph, Some(8), &weights, plus).unwrap();
    assert_eq!(first.1, second.1);
    assert_ne!(first.1, third.1);
    // The vertices are not visited in ascending order.
    let ascending: Vec<usize> = (0..36).collect();
    assert_ne!(first.1, match_vertices(&graph, &ascending).0);
}

#[test]
fn without_a_seed_the_order_is_random() {
    let graph = grid(6);
    let weights = doubles(&[1.0; 36]);
    let ascending: Vec<usize> = (0..36).collect();
    let unshuffled = match_vertices(&graph, &ascending).0;
    let drawn: Vec<Vec<Vec<usize>>> = (0..5)
        .map(|_| heavy_edge_matching_coarse(&graph, None, &weights, plus).unwrap().1)
        .collect();
    assert!(drawn.iter().any(|mapping| *mapping != unshuffled));
    assert!(drawn.iter().any(|mapping| *mapping != drawn[0]));
}

#[test]
fn coarsening_keeps_vertices_and_edge_cuts() {
    let graph = grid(6);
    let weights = doubles(&[1.0; 36]);
    let (coarse, mapping, coarse_weights) =
        heavy_edge_matching_coarse(&graph, None, &weights, plus).unwrap();
    let mut seen: Vec<usize> = mapping.concat();
    seen.sort();
    assert_eq!(seen, (0..36).collect::<Vec<usize>>());
    assert_eq!(floats(&coarse_weights).iter().sum::<f64>(), 36.0);
    let coarse = Graph::from_matrix(&coarse).unwrap();
    assert!(coarse.len() < graph.len());
    let partition: Vec<usize> = (0..coarse.len()).map(|v| v % 3).collect();
    let fine = partition_uncoarse(&partition, &mapping);
    assert_eq!(coarse.edge_cut(&partition), graph.edge_cut(&fine));
    assert_eq!(
        imbalance(3, &partition, &floats(&coarse_weights)),
        imbalance(3, &fine, &[1.0; 36])
    );
    let total = |g: &Graph| g.edge_list().iter().map(|edge| edge.1).sum::<i64>();
    assert!(total(&coarse) < total(&graph));
    for v in 0..coarse.len() {
        for (u, w) in coarse.neighbors(v) {
            assert!(*u != v && *w > 0);
            assert!(coarse.neighbors(*u).contains(&(v, *w)));
        }
    }
}

#[test]
fn a_ladder_ends_when_the_graph_is_coarse_enough() {
    let graph = grid(20);
    let weights = doubles(&[1.0; 400]);
    let levels = coarsen_repeatedly(&graph, &weights, plus).unwrap();
    assert!(levels.len() >= 2);
    let last = levels.len() - 1;
    for (i, level) in levels.iter().enumerate() {
        assert_eq!(level.graph.len() <= 100, i == last);
        assert_eq!(level.vertex_mapping.len(), level.graph.len());
        assert_eq!(level.weights.len(), level.graph.len());
    }
    assert!(coarsen_repeatedly(&grid(10), &doubles(&[1.0; 100]), plus).unwrap().is_empty());
}

#[test]
fn a_fruitless_coarsening_is_followed_by_another() {
    // Only edges into the hub have a positive weight. A coarsening that visits
    // the hub first pairs nobody; any other pairs the hub with one vertex.
    let mut entries = Vec::new();
    for v in 1..150usize {
        entries.push((v, 0, 1));
        entries.push((0, v, -1));
    }
    let star = graph(&entries);
    let order: Vec<usize> = (0..150).collect();
    let weights = doubles(&[1.0; 150]);
    assert_eq!(coarsen(&star, &order, &weights, plus).unwrap().1.len(), 150);
    for _ in 0..20 {
        let levels = coarsen_repeatedly(&star, &weights, plus).unwrap();
        assert!(levels.len() >= 50);
        assert_eq!(levels.last().unwrap().graph.len(), 100);
    }
}

#[test]
fn a_graph_of_negative_weights_is_never_coarse_enough() {
    let mut entries = Vec::new();
    for v in 0..150usize {
        entries.push((v, (v + 1) % 150, -1));
        entries.push(((v + 1) % 150, v, -1));
    }
    assert!(coarsen_repeatedly(&graph(&entries), &doubles(&[1.0; 150]), plus).is_none());
}

fn partition_with(
    settings: &MultiLevelPartitioner,
    part_ids: &mut [usize],
    graph: &Graph,
    weights: &[f64],
    geometric: impl Fn(&Graph, &Vec<Double>) -> Vec<usize>,
    bisection: impl Fn(&Graph, &Vec<Double>) -> Vec<usize>,
) -> Result<(), Error> {
    let arithmetic = Arithmetic {
        imbalance: |parts: usize, p: &Vec<usize>, w: &[Double]| {
            double(imbalance(parts, p, &floats(w)))
        },
        plus,
        minus: |a: Double, b: Double| double(float(a) - float(b)),
        times: |a: Double, b: Double| double(float(a) * float(b)),
        over: |a: Double, b: Double| double(float(a) / float(b)),
        widen: |x: i64| double(x as f64),
        count: |x: usize| double(x as f64),
        floor: |d: Double| float(d).floor() as i64,
    };
    settings.partition(part_ids, graph, &doubles(weights), geometric, bisection, &arithmetic)
}

fn halves(g: &Graph, _: &Vec<Double>) -> Vec<usize> {
    (0..g.len()).map(|v| 2 * v / g.len()).collect()
}

fn partition(
    settings: &MultiLevelPartitioner,
    part_ids: &mut [usize],
    graph: &Graph,
    weights: &[f64],
) -> Result<(), Error> {
    partition_with(settings, part_ids, graph, weights, halves, halves)
}

#[test]
fn the_initial_partitioner_of_the_settings_is_used() {
    for (kind, calls) in [
        (InitialPartitioner::GeometricPartitioner, (1, 0)),
        (InitialPartitioner::RecursiveCoordinateBisection, (0, 1)),
    ] {
        let settings =
            MultiLevelPartitioner { initial_partitioner: kind, ..MultiLevelPartitioner::default() };
        let geometric_calls = Cell::new(0);
        let bisection_calls = Cell::new(0);
        let mut part_ids = vec![7; 400];
        let result = partition_with(
            &settings,
            &mut part_ids,
            &grid(20),
            &[1.0; 400],
            |g: &Graph, w: &Vec<Double>| {
                geometric_calls.set(geometric_calls.get() + 1);
                halves(g, w)
            },
            |g: &Graph, w: &Vec<Double>| {
                bisection_calls.set(bisection_calls.get() + 1);
                halves(g, w)
            },
        );
        assert_eq!(result, Ok(()));
        assert_eq!((geometric_calls.get(), bisection_calls.get()), calls);
    }
}

#[test]
fn a_grid_is_cut_in_two() {
    let graph = grid(20);
    let mut part_ids = vec![7; 400];

    assert_eq!(
        partition(&MultiLevelPartitioner::default(), &mut part_ids, &graph, &[1.0; 400]),
        Ok(())
    );

    assert!(part_ids.iter().all(|p| *p < 2));
    assert!(graph.edge_cut(&part_ids) > 0);
}

#[test]
fn small_graphs_have_too_few_levels() {
    let mut part_ids = vec![7; 36];
    assert_eq!(
        partition(&MultiLevelPartitioner::default(), &mut part_ids, &grid(6), &[1.0; 36]),
        Err(Error::TooFewLevels)
    );
    assert_eq!(part_ids, vec![7; 36]);
}

#[test]
fn a_graph_that_cannot_be_coarsened_is_an_error() {
    let mut entries = Vec::new();
    for v in 0..150usize {
        entries.push((v, (v + 1) % 150, -1));
        entries.push(((v + 1) % 150, v, -1));
    }
    let mut part_ids = vec![0; 150];
    assert_eq!(
        partition(&MultiLevelPartitioner::default(), &mut part_ids, &graph(&entries), &[1.0; 150]),
        Err(Error::NotCoarsened)
    );
}

#[test]
fn heavy_loops_are_an_error() {
    let mut entries = Vec::new();
    for v in 0..450usize {
        entries.push((v, v, 50));
        entries.push((v, (v + 1) % 450, 1));
        entries.push(((v + 1) % 450, v, 1));
    }
    entries.sort();
    let mut part_ids = vec![7; 450];
    let result = partition(
        &MultiLevelPartitioner::default(),
        &mut part_ids,
        &graph(&entries),
        &[1.0; 450],
    );
    assert_eq!(result, Err(Error::SelfLoop));
    assert_eq!(part_ids, vec![7; 450]);
}

#[test]
fn loops_without_weight_are_no_error() {
    let mut entries = Vec::new();
    for v in 0..450usize {
        entries.push((v, v, 0));
        entries.push((v, (v + 1) % 450, 1));
        entries.push(((v + 1) % 450, v, 1));
    }
    entries.sort();
    let graph = graph(&entries);
    assert!(graph.neighbors(0).contains(&(0, 0)));
    let mut part_ids = vec![7; 450];
    assert_eq!(
        partition(&MultiLevelPartitioner::default(), &mut part_ids, &graph, &[1.0; 450]),
        Ok(())
    );
    assert!(part_ids.iter().all(|p| *p < 2));
}

#[test]
fn lengths_have_to_agree() {
    let mut part_ids = vec![0; 35];
    let settings = MultiLevelPartitioner::default();
    assert_eq!(
        partition(&settings, &mut part_ids, &grid(6), &[1.0; 36]),
        Err(Error::InputLenMismatch { expected: 35, actual: 36 })
    );
    assert_eq!(
        partition(&settings, &mut part_ids, &grid(6), &[1.0; 35]),
        Err(Error::InputLenMismatch { expected: 35, actual: 36 })
    );
}

#[test]
fn multilevel_settings_have_their_usual_values() {
    let settings = MultiLevelPartitioner::default();
    assert_eq!(settings.initial_partitioner, InitialPartitioner::RecursiveCoordinateBisection);
    assert_eq!(float(settings.tolerance), 0.1);
}

#[test]
fn matrices_grow_and_overwrite() {
    let mut m = SparseMatrix::new();
    assert_eq!((m.rows(), m.cols()), (0, 0));
    m.insert(2, 0, 5);
    assert_eq!((m.rows(), m.cols()), (3, 1));
    assert!(Graph::from_matrix(&m).is_none());
    m.insert(0, 2, 4);
    m.insert(2, 0, 7);
    m.insert(2, 1, -3);
    assert_eq!((m.rows(), m.cols()), (3, 3));
    assert_eq!(m.get(2, 0), Some(7));
    assert_eq!(m.get(1, 1), None);
    assert_eq!(m.get(9, 9), None);
    let graph = Graph::from_matrix(&m).unwrap();
    assert_eq!(graph.len(), 3);
    assert_eq!(graph.neighbors(0), &vec![(2, 4)]);
    assert_eq!(graph.neighbors(1), &vec![]);
    assert_eq!(graph.neighbors(2), &vec![(0, 7), (1, -3)]);
    assert_eq!(
        graph.edge_list(),
        vec![((0, 2), 4), ((2, 0), 7), ((2, 1), -3)]
    );
}

#[test]
fn graphs_need_existing_neighbors() {
    assert!(Graph::new(vec![vec![(1, 1)], vec![(2, 1)]]).is_none());
    let graph = Graph::new(vec![vec![(1, 3)], vec![(0, 3)]]).unwrap();
    assert!(graph.weights_fit());
    assert_eq!(graph.edge_cut(&[0, 1]), 3);
    assert_eq!(graph.edge_cut(&[1, 1]), 0);
    assert!(!Graph::new(vec![vec![(0, i64::MAX)]]).unwrap().weights_fit());
    assert!(Graph::new(vec![vec![(0, i64::MAX)]]).unwrap().weighs_at_most(i64::MAX));
    assert!(!Graph::new(vec![vec![(0, i64::MIN)]]).unwrap().weighs_at_most(i64::MAX));
    assert!(graph.weighs_at_most(6) && !graph.weighs_at_most(5));
    assert!(!Graph::new(vec![vec![(0, i64::MIN)]]).unwrap().weights_fit());
}

#[test]
fn a_vertex_that_no_group_names_is_in_part_zero() {
    assert_eq!(partition_uncoarse(&[5, 6], &vec![vec![0, 0], vec![1]]), vec![5, 6, 0]);
}
