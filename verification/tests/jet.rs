use graphpart::arithmetic::Arithmetic;
use graphpart::connectivity::{
    conn, get_most_connected_partition, init_vertex_connectivity_data_structure, Move,
};
use graphpart::double::Double;
use graphpart::error::{check_lengths, Error};
use graphpart::jet::{number_of_partitions, JetPartitioner, JetState, Routine};
use graphpart::matrix::SparseMatrix;
use graphpart::rebalance::{
    get_adjacent_eligible_destination_partitions, jetrw, rebalance, Load,
};
use graphpart::refine::{
    gain_conn_ratio_filter, get_locked_vertices, is_higher_placed, jetlp, listed,
    non_negative_gain_filter,
};
use graphpart::relocate::update_parts_and_vertex_connectivity;
use graphpart::rounds::jet_partitioner;
use graphpart::slots::{
    calculate_slot, get_index_for_bucket, init_bucket, MAX_SLOTS, SLOTS_PER_PART,
};
use graphpart::topology::Graph;
use graphpart::unload::unload;
use graphpart::weights::get_weight_of_partition;
use std::collections::{HashMap, HashSet};

fn double(x: f64) -> Double {
    Double { bits: x.to_bits() }
}

fn float(d: Double) -> f64 {
    f64::from_bits(d.bits)
}

fn doubles(xs: &[f64]) -> Vec<Double> {
    xs.iter().map(|x| double(*x)).collect()
}

fn plus(a: Double, b: Double) -> Double {
    double(float(a) + float(b))
}

fn minus(a: Double, b: Double) -> Double {
    double(float(a) - float(b))
}

fn times(a: Double, b: Double) -> Double {
    double(float(a) * float(b))
}

fn over(a: Double, b: Double) -> Double {
    double(float(a) / float(b))
}

fn widen(x: i64) -> Double {
    double(x as f64)
}

fn count(x: usize) -> Double {
    double(x as f64)
}

fn floor(d: Double) -> i64 {
    float(d).floor() as i64
}

fn graph(entries: &[(usize, usize, i64)]) -> Graph {
    let mut adjacency = SparseMatrix::new();
    for (row, col, weight) in entries {
        adjacency.insert(*row, *col, *weight);
    }
    Graph::from_matrix(&adjacency).unwrap()
}

fn allowances(ratio: f64, partitions: &[usize], c: &Vec<HashMap<usize, i64>>) -> Vec<i64> {
    (0..partitions.len())
        .map(|v| (ratio * conn(v, partitions[v], c) as f64).floor() as i64)
        .collect()
}

fn load(parts: usize, partition: &[usize], weights: &[Double], balance_factor: f64) -> Load {
    Arithmetic {
        imbalance: |parts: usize, p: &Vec<usize>, w: &[Double]| double(imbalance(parts, p, w)),
        plus,
        minus,
        times,
        over,
        widen,
        count,
        floor,
    }
    .load(double(balance_factor), parts, partition, weights)
}

fn imbalance(parts: usize, partition: &[usize], weights: &[Double]) -> f64 {
    let mut loads = vec![0.0; parts];
    for (part, weight) in partition.iter().zip(weights) {
        loads[*part] += float(*weight);
    }
    let ideal = loads.iter().sum::<f64>() / parts as f64;
    loads
        .iter()
        .map(|load| (load - ideal) / ideal)
        .fold(f64::MIN, f64::max)
}

fn mesh() -> Graph {
    let edges = [
        (0, 1),
        (1, 2),
        (2, 3),
        (4, 5),
        (5, 6),
        (6, 7),
        (0, 4),
        (1, 5),
        (2, 6),
        (3, 7),
    ];
    let mut entries = Vec::new();
    for (a, b) in edges {
        entries.push((a, b, 1));
        entries.push((b, a, 1));
    }
    graph(&entries)
}

#[test]
fn test_get_locked_vertices() {
    let moves = vec![
        Move { vertex: 0, partition_id: 3 },
        Move { vertex: 3, partition_id: 4 },
        Move { vertex: 4, partition_id: 5 },
    ];

    let locked_vertices = get_locked_vertices(&moves);

    assert!(locked_vertices.contains(&(0usize)));
    assert!(locked_vertices.contains(&(3usize)));
    assert!(locked_vertices.contains(&(4usize)));
    assert!(!locked_vertices.contains(&(2usize)));
}

fn star() -> Graph {
    graph(&[(0, 1, 2), (0, 2, 1), (0, 3, 4), (1, 0, 2), (2, 0, 1), (3, 0, 4)])
}

#[test]
fn test_init_vertex_connectivity_data_structure() {
    let partition = [0, 0, 0, 1];

    let vtx_conn_data_struct = init_vertex_connectivity_data_structure(&star(), &partition);

    assert_eq!(*vtx_conn_data_struct[0].get(&0).unwrap(), 3);
    assert_eq!(*vtx_conn_data_struct[0].get(&1).unwrap(), 4);
}

#[test]
fn test_get_most_connected_partition() {
    let partition = [0, 0, 0, 1];
    let vtx_conn_data_struct = init_vertex_connectivity_data_structure(&star(), &partition);

    let most_connected_partition =
        get_most_connected_partition(0, &partition, &vtx_conn_data_struct);

    assert_eq!(most_connected_partition, 1);
}

#[test]
fn test_conn() {
    let partition = [0, 0, 0, 1];
    let vtx_conn_data_struct = init_vertex_connectivity_data_structure(&star(), &partition);

    let conn_strength_part_0 = conn(0, 0, &vtx_conn_data_struct);
    let conn_strength_part_1 = conn(0, 1, &vtx_conn_data_struct);

    assert_eq!(conn_strength_part_0, 3);
    assert_eq!(conn_strength_part_1, 4);
}

#[test]
fn test_non_negative_gain_filter() {
    let mut gain = HashMap::new();
    gain.insert(0, 3);
    gain.insert(1, 2);
    gain.insert(2, -1);
    let eligible_vertices_to_move = [0, 2];
    let partition_dest = [1, 0, 1];

    let moves = non_negative_gain_filter(&eligible_vertices_to_move, &partition_dest, &gain);

    assert_eq!(moves.len(), 1);
    assert_eq!(moves[0].vertex, 0);
    assert_eq!(moves[0].partition_id, 1);
}

#[test]
fn test_gain_conn_ratio_filter() {
    let adjacency = graph(&[
        (0, 1, 3),
        (0, 2, 1),
        (0, 3, 4),
        (1, 0, 3),
        (2, 0, 1),
        (3, 0, 4),
    ]);
    let partitions = [0, 0, 0, 1];
    let vtx_conn_data_struct = init_vertex_connectivity_data_structure(&adjacency, &partitions);
    let gain = [-1, 2, -2, -2];
    let filter_ratio = 0.75;
    let mut locked_vertices = HashSet::new();
    locked_vertices.insert(2);
    locked_vertices.insert(3);

    let eligible_vertices_to_move = gain_conn_ratio_filter(
        &locked_vertices,
        &gain,
        &allowances(filter_ratio, &partitions, &vtx_conn_data_struct),
    );

    assert_eq!(eligible_vertices_to_move.len(), 2);
    assert_eq!(eligible_vertices_to_move[0], 0);
    assert_eq!(eligible_vertices_to_move[1], 1);
}

#[test]
fn test_update_parts_and_vertex_connectivity() {
    let adjacency = graph(&[
        (0, 1, 1),
        (0, 2, 2),
        (2, 4, 3),
        (4, 5, 1),
        (5, 3, 3),
        (3, 1, 2),
        (1, 0, 1),
        (2, 0, 2),
        (4, 2, 3),
        (5, 4, 1),
        (3, 5, 3),
        (1, 3, 2),
    ]);
    let mut partitions = [0, 0, 0, 0, 1, 1];
    let mut vtx_conn_data_struct = init_vertex_connectivity_data_structure(&adjacency, &partitions);
    let moves = vec![
        Move { vertex: 2, partition_id: 1 },
        Move { vertex: 3, partition_id: 1 },
    ];

    update_parts_and_vertex_connectivity(
        &adjacency,
        &mut partitions,
        &mut vtx_conn_data_struct,
        &moves,
    );

    assert_eq!(partitions[2], 1);
    assert_eq!(partitions[3], 1);
    assert_eq!(*vtx_conn_data_struct[0].get(&0).unwrap(), 1);
    assert_eq!(*vtx_conn_data_struct[0].get(&1).unwrap(), 2);
    assert_eq!(*vtx_conn_data_struct[1].get(&0).unwrap(), 1);
    assert_eq!(*vtx_conn_data_struct[1].get(&1).unwrap(), 2);
    assert_eq!(*vtx_conn_data_struct[4].get(&1).unwrap(), 4);
    assert_eq!(*vtx_conn_data_struct[5].get(&1).unwrap(), 4);
}

#[test]
fn test_is_higher_placed() {
    let gain = [4, 2, 2, 1];
    let list_of_vertices = [0, 1, 2];

    let result1 = is_higher_placed(0, 2, &gain, &list_of_vertices);
    assert_eq!(result1, true);

    let result2 = is_higher_placed(1, 2, &gain, &list_of_vertices);
    assert_eq!(result2, true);

    let result3 = is_higher_placed(3, 2, &gain, &list_of_vertices);
    assert_eq!(result3, false);
}

#[test]
fn test_get_weight_of_partition() {
    let partitions = [1, 0, 0];
    let vertex_weights = doubles(&[1f64, 2f64, 3f64]);

    let weight = get_weight_of_partition(0, &partitions, &vertex_weights, plus);

    assert_eq!(float(weight), 5f64);
}

#[test]
fn test_calculate_slot() {
    let slot1 = calculate_slot(-4, 3);
    let slot2 = calculate_slot(0, 3);
    let slot3 = calculate_slot(6, 8);
    let slot4 = calculate_slot(10, 3);

    assert_eq!(slot1, 0);
    assert_eq!(slot2, 1);
    assert_eq!(slot3, 4);
    assert_eq!(slot4, 3);
}

#[test]
fn test_get_adjacent_eligible_destination_partitions() {
    let adjacency = graph(&[
        (0, 1, 1),
        (0, 2, 2),
        (0, 3, 3),
        (2, 4, 3),
        (1, 0, 1),
        (2, 0, 2),
        (3, 0, 3),
        (4, 2, 3),
    ]);
    let partitions = [0, 1, 3, 4, 2];
    let light_partitions = [1, 2];

    let adjacent_eligible_partitions =
        get_adjacent_eligible_destination_partitions(&adjacency, 0, &partitions, &light_partitions);

    assert_eq!(adjacent_eligible_partitions.len(), 1);
    assert_eq!(adjacent_eligible_partitions[0], 1);
}

fn ring() -> Graph {
    graph(&[
        (0, 1, 3),
        (1, 2, 3),
        (2, 3, 3),
        (3, 0, 3),
        (1, 0, 3),
        (2, 1, 3),
        (3, 2, 3),
        (0, 3, 3),
    ])
}

#[test]
fn test_jetrw() {
    let adjacency = ring();
    let vtx_weights = doubles(&[300f64, 300f64, 300f64, 150f64]);
    let partitions = [0, 0, 0, 1];

    let vtx_conn_data_struct = init_vertex_connectivity_data_structure(&adjacency, &partitions);
    let moves = jetrw(
        &adjacency,
        &partitions,
        &vtx_weights,
        &vtx_conn_data_struct,
        &load(2, &partitions, &vtx_weights, 0.1),
        plus,
    )
    .unwrap();

    assert_eq!(moves.len(), 1);
    assert_eq!(moves[0].vertex, 0);
    assert_eq!(moves[0].partition_id, 1);
}

#[test]
fn test_jetlp() {
    let adjacency = graph(&[
        (0, 1, 5),
        (1, 2, 8),
        (2, 3, 1),
        (3, 0, 2),
        (1, 0, 5),
        (2, 1, 8),
        (3, 2, 1),
        (0, 3, 2),
    ]);
    let partitions = [0, 1, 1, 0];
    let locked_vertices = HashSet::new();

    let vtx_conn_data_struct = init_vertex_connectivity_data_structure(&adjacency, &partitions);
    let moves = jetlp(
        &adjacency,
        &partitions,
        &vtx_conn_data_struct,
        &locked_vertices,
        &allowances(0.3, &partitions, &vtx_conn_data_struct),
    )
    .unwrap();

    assert_eq!(moves.len(), 1);
    assert_eq!(moves[0].vertex, 0);
    assert_eq!(moves[0].partition_id, 1);
}

fn improve(
    settings: &JetPartitioner,
    partition: &mut [usize],
    adjacency: &Graph,
    weights: &[f64],
) -> Result<(), Error> {
    let arithmetic = Arithmetic {
        imbalance: |parts: usize, p: &Vec<usize>, w: &[Double]| double(imbalance(parts, p, w)),
        plus,
        minus,
        times,
        over,
        widen,
        count,
        floor,
    };
    settings.partition(partition, adjacency, &doubles(weights), &arithmetic)
}

#[test]
fn swapped_vertices_of_a_mesh_find_back() {
    let mut partition = [0, 0, 1, 1, 0, 1, 0, 1];

    let done = improve(&JetPartitioner::default(), &mut partition, &mesh(), &[1.0; 8]);

    assert_eq!(done, Ok(()));
    assert_eq!(partition, [0, 0, 1, 1, 0, 0, 1, 1]);
}

#[test]
fn no_rounds_leave_the_partition_alone() {
    let mut partition = [0, 0, 1, 1, 0, 1, 0, 1];
    let settings = JetPartitioner { iterations: 0, ..JetPartitioner::default() };

    assert_eq!(improve(&settings, &mut partition, &mesh(), &[1.0; 8]), Ok(()));
    assert_eq!(partition, [0, 0, 1, 1, 0, 1, 0, 1]);
}

#[test]
fn an_unbalanced_partition_is_balanced() {
    let mut partition = [0, 0, 0, 0, 0, 0, 0, 1];
    let weights = [1.0; 8];
    let before = imbalance(2, &partition, &doubles(&weights));

    assert_eq!(improve(&JetPartitioner::default(), &mut partition, &mesh(), &weights), Ok(()));

    assert!(imbalance(2, &partition, &doubles(&weights)) < before);
}

#[test]
fn lengths_have_to_match() {
    let mut partition = [0, 1, 0];
    assert_eq!(
        improve(&JetPartitioner::default(), &mut partition, &ring(), &[1.0; 4]),
        Err(Error::InputLenMismatch { expected: 3, actual: 4 })
    );
    assert_eq!(
        improve(&JetPartitioner::default(), &mut partition, &ring(), &[1.0; 3]),
        Err(Error::InputLenMismatch { expected: 3, actual: 4 })
    );
    // The weights of the edges do not matter then.
    let heavy = graph(&[(0, 1, i64::MAX), (1, 0, i64::MAX)]);
    assert_eq!(
        improve(&JetPartitioner::default(), &mut partition, &heavy, &[1.0; 3]),
        Err(Error::InputLenMismatch { expected: 3, actual: 2 })
    );
    assert_eq!(partition, [0, 1, 0]);
    assert_eq!(check_lengths(3, 3, 3), Ok(()));
    assert_eq!(check_lengths(2, 3, 4), Err(Error::InputLenMismatch { expected: 2, actual: 3 }));
}

#[test]
fn a_vertex_whose_neighbors_all_move_away_stays() {
    // Vertex 0 would follow vertex 1 into part 1, but vertex 1 is better placed
    // and goes to part 2. Vertex 2 stays because vertex 1 comes to it.
    let adjacency = graph(&[(0, 1, 1), (1, 0, 1), (1, 2, 9), (2, 1, 9)]);
    let mut partition = [0, 1, 2];
    let table = init_vertex_connectivity_data_structure(&adjacency, &partition);
    assert_eq!(
        jetlp(&adjacency, &partition, &table, &HashSet::new(), &[0; 3]),
        Some(vec![Move { vertex: 1, partition_id: 2 }])
    );

    let settings = JetPartitioner {
        balance_factor: double(10.0),
        ..JetPartitioner::default()
    };
    assert_eq!(improve(&settings, &mut partition, &adjacency, &[1.0; 3]), Ok(()));
    assert_eq!(adjacency.edge_cut(&partition), 0);
}

fn short_path() -> Graph {
    graph(&[(0, 1, 2), (1, 0, 2), (1, 2, 5), (2, 1, 5)])
}

#[test]
fn only_positive_second_gains_yield_moves() {
    // The second gains are none for vertex 0, -7 for vertex 1 and 5 for vertex
    // 2.
    let adjacency = short_path();
    let partition = [0, 0, 1];
    let table = init_vertex_connectivity_data_structure(&adjacency, &partition);
    let allowance = allowances(0.75, &partition, &table);
    assert_eq!(allowance, vec![1, 1, 0]);
    assert_eq!(
        jetlp(&adjacency, &partition, &table, &HashSet::new(), &allowance),
        Some(vec![Move { vertex: 2, partition_id: 0 }])
    );

    let none = HashMap::new();
    assert_eq!(non_negative_gain_filter(&[0, 1], &[1, 1], &none), vec![]);
}

#[test]
fn equal_lengths_are_no_error() {
    let mut partition = [0, 0, 1];
    let settings = JetPartitioner::default();
    assert_eq!(improve(&settings, &mut partition, &short_path(), &[1.0; 3]), Ok(()));
}

#[test]
fn a_table_without_an_entry_breaks_off() {
    let adjacency = short_path();
    let empty = vec![HashMap::new(); 3];
    assert_eq!(jetlp(&adjacency, &[0, 0, 1], &empty, &HashSet::new(), &[0; 3]), None);
}

#[test]
fn a_vertex_that_finds_no_light_part_breaks_off() {
    // Part 0 is too heavy by a little, and part 1 is not light enough.
    let adjacency = graph(&[(0, 1, 1), (1, 0, 1), (1, 2, 1), (2, 1, 1), (2, 3, 1), (3, 2, 1)]);
    let mut partition = [0, 0, 0, 1];
    let settings = JetPartitioner { balance_factor: double(0.0), ..JetPartitioner::default() };
    assert_eq!(
        improve(&settings, &mut partition, &adjacency, &[1.0, 0.005, 1.0, 1.995]),
        Err(Error::MissingEntry)
    );
    assert_eq!(partition, [0, 0, 0, 1]);
}

#[test]
fn no_tolerance_and_one_round_is_one_refinement() {
    let adjacency = mesh();
    let start = [0, 0, 1, 1, 0, 1, 0, 1];
    let settings = JetPartitioner {
        iterations: 1,
        tolerance_factor: double(0.0),
        ..JetPartitioner::default()
    };
    let mut partition = start;
    assert_eq!(improve(&settings, &mut partition, &adjacency, &[1.0; 8]), Ok(()));

    let mut refined = start;
    let mut table = init_vertex_connectivity_data_structure(&adjacency, &start);
    let allowance = allowances(0.75, &start, &table);
    let moves = jetlp(&adjacency, &start, &table, &HashSet::new(), &allowance).unwrap();
    update_parts_and_vertex_connectivity(&adjacency, &mut refined, &mut table, &moves);
    assert!(partition == start || partition == refined);
}

#[test]
fn parts_are_not_made_up() {
    for start in [[0, 0, 1, 1, 0, 1, 0, 1], [2, 2, 1, 1, 0, 0, 0, 0], [0, 0, 0, 0, 0, 0, 0, 1]] {
        let mut partition = start;
        let weights = [1.0; 8];
        let parts = number_of_partitions(&start);
        let before = imbalance(parts, &start, &doubles(&weights));
        assert_eq!(improve(&JetPartitioner::default(), &mut partition, &mesh(), &weights), Ok(()));
        assert!(partition.iter().all(|p| start.contains(p)));
        let after = imbalance(parts, &partition, &doubles(&weights));
        if before < 0.1 {
            assert!(after < 0.1);
            assert!(partition == start || mesh().edge_cut(&partition) < mesh().edge_cut(&start));
        } else {
            assert!(after <= before);
        }
    }
}

#[test]
fn settings_have_their_usual_values() {
    let settings = JetPartitioner::default();
    assert_eq!(settings.iterations, 12);
    assert_eq!(float(settings.balance_factor), 0.1);
    assert_eq!(float(settings.filter_ratio), 0.75);
    assert_eq!(float(settings.tolerance_factor), 0.99);
}

#[test]
fn the_load_follows_its_formulas() {
    let weights = doubles(&[300.0, 300.0, 300.0, 150.0]);
    let light = load(2, &[0, 0, 0, 1], &weights, 0.1);
    assert_eq!(float(light.max_weight), (1.0 + 0.1) * 1050.0 / 2.0);
    assert_eq!(float(light.max_weight_dest), (1.0 + 0.1) * 1050.0 / 2.0 * 0.99);
    assert_eq!(light.weights, doubles(&[900.0, 150.0]));
    assert_eq!(light.limits, doubles(&[1.5 * (900.0 - 525.0), 1.5 * (150.0 - 525.0)]));
    assert_eq!(float(light.excesses[0]), 900.0 - (1.0 + 0.1) * 1050.0 / 2.0);
    assert_eq!(light.heavy_partitions(), vec![0]);
    assert_eq!(light.light_partitions(), vec![1]);

    let heavy = load(1, &[0], &doubles(&[20000.0]), 0.5);
    assert_eq!(float(heavy.max_weight), 30000.0);
    assert_eq!(float(heavy.max_weight_dest), 29900.0);
}

#[test]
fn stranded_vertices_go_where_they_are_told() {
    // Part 0 is heavy and has no edge to the light part 1.
    let adjacency = graph(&[(0, 1, 1), (1, 0, 1), (2, 3, 1), (3, 2, 1)]);
    let partitions = [0, 0, 0, 1];
    let weights = doubles(&[10.0, 10.0, 10.0, 1.0]);
    let table = init_vertex_connectivity_data_structure(&adjacency, &partitions);
    let load = load(2, &partitions, &weights, 0.1);

    let moves = rebalance(&adjacency, &partitions, &weights, &table, &load, &[0; 4], plus).unwrap();
    let random = jetrw(&adjacency, &partitions, &weights, &table, &load, plus).unwrap();

    assert_eq!(moves, vec![Move { vertex: 2, partition_id: 1 }]);
    assert_eq!(random, moves);
}

#[test]
fn without_a_light_part_there_is_no_rebalancing() {
    let adjacency = ring();
    let partitions = [0, 0, 1, 1];
    let weights = doubles(&[1.0; 4]);
    let table = init_vertex_connectivity_data_structure(&adjacency, &partitions);
    let mut load = load(2, &partitions, &weights, 0.1);
    load.max_weight = double(1.0);
    load.max_weight_dest = double(0.5);
    load.limits = doubles(&[5.0, 5.0]);

    assert!(rebalance(&adjacency, &partitions, &weights, &table, &load, &[0; 4], plus).is_none());
    assert!(jetrw(&adjacency, &partitions, &weights, &table, &load, plus).is_none());
}

#[test]
fn the_cheapest_vertices_leave_first() {
    let partitions = [0, 0, 0, 1];
    let weights = doubles(&[1.0, 1.0, 1.0, 1.0]);
    let moves = unload(
        &partitions,
        &[0],
        &[5, -1, 0, 0],
        &[1, 1, 1, 1],
        &weights,
        &doubles(&[2.5, 0.0]),
        plus,
    );
    assert_eq!(
        moves,
        vec![Move { vertex: 1, partition_id: 1 }, Move { vertex: 2, partition_id: 1 }]
    );
}

#[test]
fn the_greatest_losses_stay_with_their_own_part() {
    let weights = doubles(&[1.0, 1.0]);
    let excesses = doubles(&[9.0, 9.0]);
    let huge = 1i64 << 40;
    // The vertex with the huge loss comes last in its part.
    assert_eq!(
        unload(&[0, 0], &[0], &[huge, 0], &[1, 1], &weights, &excesses, plus),
        vec![Move { vertex: 1, partition_id: 1 }, Move { vertex: 0, partition_id: 1 }]
    );
    // It does not count towards the part after its own.
    let none_of_the_first = doubles(&[0.0, 9.0]);
    assert_eq!(
        unload(&[0, 1], &[0, 1], &[huge, 0], &[5, 6], &weights, &none_of_the_first, plus),
        vec![Move { vertex: 1, partition_id: 6 }]
    );
    assert_eq!(calculate_slot((1 << 23) - 1, MAX_SLOTS), 24);
    assert_eq!(calculate_slot(1 << 23, MAX_SLOTS), MAX_SLOTS);
    assert_eq!(SLOTS_PER_PART, 26);
}

#[test]
fn slots_grow_with_powers_of_two() {
    assert_eq!(calculate_slot(1, 25), 2);
    assert_eq!(calculate_slot(2, 25), 3);
    assert_eq!(calculate_slot(3, 25), 3);
    assert_eq!(calculate_slot(4, 25), 4);
    assert_eq!(calculate_slot(i64::MAX, 25), 25);
    assert_eq!(calculate_slot(i64::MAX, 100), 64);
    assert_eq!(calculate_slot(i64::MIN, 25), 0);
    assert_eq!(calculate_slot(7, 1), 1);
    assert_eq!(get_index_for_bucket(3, 4, 25), 79);
    assert_eq!(init_bucket(2, 3), vec![Vec::<usize>::new(); 6]);
}

#[test]
fn the_best_partition_only_changes_for_the_better() {
    let adjacency = mesh();
    let settings = JetPartitioner::default();
    let start = [0, 0, 1, 1, 0, 1, 0, 1];
    let mut state = JetState::new(settings, &adjacency, &start, double(0.0));
    assert!(state.is_running());
    assert_eq!(state.routine(), Routine::Refine);
    assert_eq!(state.edge_cuts(), (6, 6));
    assert_eq!(state.own_connectivity(), vec![2, 1, 1, 2, 1, 0, 0, 1]);

    // A round that changes nothing is counted and keeps the best partition.
    state.settle(double(0.0), double(6.0), double(5.94));
    assert_eq!(state.edge_cuts(), (6, 6));

    // An unbalanced partition calls for rebalancing.
    state.settle(double(0.5), double(6.0), double(5.94));
    assert_eq!(state.routine(), Routine::Rebalance);

    // Rounds without improvement end the run.
    for _ in 2..12 {
        assert!(state.is_running());
        state.settle(double(0.0), double(6.0), double(5.94));
    }
    assert!(!state.is_running());
    assert_eq!(state.finish(), start.to_vec());
}

#[test]
fn a_small_improvement_does_not_start_the_count_again() {
    let adjacency = mesh();
    let settings = JetPartitioner { iterations: 1, ..JetPartitioner::default() };
    let start = [0, 0, 1, 1, 0, 1, 0, 1];
    for (bound, running) in [(1.0, false), (5.94, true)] {
        let mut state = JetState::new(settings, &adjacency, &start, double(0.0));
        let allowance: Vec<i64> = state
            .own_connectivity()
            .iter()
            .map(|x| (0.75 * *x as f64).floor() as i64)
            .collect();
        assert!(state.refine(&allowance));
        let (now, best) = state.edge_cuts();
        assert!(now < best);
        state.settle(double(0.0), double(now as f64), double(bound));
        assert_eq!(state.is_running(), running);
        assert_eq!(state.edge_cuts(), (now, now));
    }
}

#[test]
fn moved_vertices_are_locked_for_the_next_round() {
    let adjacency = mesh();
    let start = [0, 0, 1, 1, 0, 1, 0, 1];
    let table = init_vertex_connectivity_data_structure(&adjacency, &start);
    let free = jetlp(&adjacency, &start, &table, &HashSet::new(), &[0; 8]).unwrap();
    assert!(!free.is_empty());
    let locked = get_locked_vertices(&free);
    let held = jetlp(&adjacency, &start, &table, &locked, &[0; 8]).unwrap();
    for step in &held {
        assert!(!locked.contains(&step.vertex));
    }
}

#[test]
fn applying_moves_keeps_the_table_fresh() {
    let adjacency = mesh();
    let mut partition = [0, 0, 1, 1, 0, 1, 0, 1];
    let mut table = init_vertex_connectivity_data_structure(&adjacency, &partition);
    let moves = vec![
        Move { vertex: 5, partition_id: 0 },
        Move { vertex: 6, partition_id: 1 },
    ];
    update_parts_and_vertex_connectivity(&adjacency, &mut partition, &mut table, &moves);
    assert_eq!(table, init_vertex_connectivity_data_structure(&adjacency, &partition));
}

#[test]
fn a_gain_is_what_the_edge_cut_loses() {
    let adjacency = mesh();
    let partition = [0, 0, 1, 1, 0, 1, 0, 1];
    let table = init_vertex_connectivity_data_structure(&adjacency, &partition);
    for v in 0..8 {
        for p in 0..2 {
            let mut moved = partition;
            moved[v] = p;
            let gain = conn(v, p, &table) - conn(v, partition[v], &table);
            assert_eq!(adjacency.edge_cut(&moved), adjacency.edge_cut(&partition) - gain);
        }
    }
}

#[test]
fn parts_are_counted_once() {
    assert_eq!(number_of_partitions(&[]), 0);
    assert_eq!(number_of_partitions(&[7, 7, 7]), 1);
    assert_eq!(number_of_partitions(&[0, 5, 0, 2]), 3);
    assert!(listed(&[4, 2], 2));
    assert!(!listed(&[4, 2], 3));
}

#[test]
fn a_part_without_vertices_weighs_nothing() {
    assert_eq!(float(get_weight_of_partition(9, &[1, 0], &doubles(&[1.0, 2.0]), plus)), 0.0);
}

#[test]
fn the_first_of_equally_connected_parts_wins() {
    let mut table = HashMap::new();
    table.insert(3, 5);
    table.insert(4, 5);
    table.insert(6, -2);
    let c = vec![table];
    assert_eq!(get_most_connected_partition(0, &[6, 4, 3], &c), 4);
    assert_eq!(get_most_connected_partition(0, &[6], &c), 6);
    assert_eq!(conn(0, 9, &c), 0);
}

#[test]
fn the_loop_can_be_called_by_itself() {
    let mut partition = [0, 0, 1, 1, 0, 1, 0, 1];
    let weights = doubles(&[1.0; 8]);
    let arithmetic = Arithmetic {
        imbalance: |parts: usize, p: &Vec<usize>, w: &[Double]| double(imbalance(parts, p, w)),
        plus,
        minus,
        times,
        over,
        widen,
        count,
        floor,
    };
    assert!(jet_partitioner(
        JetPartitioner::default(),
        &mut partition,
        &weights,
        &mesh(),
        &arithmetic
    ));
    assert_eq!(mesh().edge_cut(&partition), 2);
}
