use graphpart::double::Double;
use graphpart::error::Error;
use graphpart::geometric::{
    geopart, positive_places, radon_steps, sample_indices, sample_limit, sep_circle, sep_quality,
    GeometricPartitioner, RadonStep,
};
use graphpart::median::{find_median, perform_partition};
use graphpart::topology::Graph;

fn double(x: f64) -> Double {
    Double { bits: x.to_bits() }
}

fn float(d: Double) -> f64 {
    f64::from_bits(d.bits)
}

fn doubles(xs: &[f64]) -> Vec<Double> {
    xs.iter().map(|x| double(*x)).collect()
}

fn plus(a: Double, b: Double) -> Double {
    double(float(a) + float(b))
}

fn over(a: Double, b: Double) -> Double {
    double(float(a) / float(b))
}

/// A path of vertices with edges of weight 1.
fn path(n: usize) -> Graph {
    let rows = (0..n)
        .map(|v| {
            let mut row = Vec::new();
            if v > 0 {
                row.push((v - 1, 1));
            }
            if v + 1 < n {
                row.push((v + 1, 1));
            }
            row
        })
        .collect();
    Graph::new(rows).unwrap()
}

#[test]
fn test_find_median() {
    let data_odd_points = doubles(&[1.0, 2.0, 3.0, 4.0, 5.0]);
    let data_even_points = doubles(&[1.0, 2.0, 3.0, 4.0]);

    let median_even_points = float(find_median(&data_even_points, plus, over).unwrap());
    let median_odd_points = float(find_median(&data_odd_points, plus, over).unwrap());

    assert!((median_odd_points - 3.0).abs() <= 1e-9);
    assert!((median_even_points - 2.5).abs() <= 1e-9);
}

#[test]
fn test_perform_partition() {
    let sep_plane = [1.0, 0.0, 1.0];
    let points = [[3.0, 0.0, -3.0], [2.0, 0.0, -2.0], [-4.0, 0.0, 3.0], [-3.0, 0.0, 4.0]];
    let mut partition = [0; 4];

    let projections: Vec<f64> = points
        .iter()
        .map(|point| point.iter().zip(sep_plane).map(|(x, n)| x * n).sum::<f64>())
        .collect();
    assert!(perform_partition(&doubles(&projections), plus, over, &mut partition));

    assert_eq!(partition, [1, 0, 1, 0]);
}

#[test]
fn medians_do_not_depend_on_the_order() {
    assert_eq!(find_median(&doubles(&[5.0, -1.0, 3.0]), plus, over), Some(double(3.0)));
    assert_eq!(find_median(&doubles(&[4.0, 1.0, 3.0, -2.0]), plus, over), Some(double(2.0)));
    assert_eq!(find_median(&doubles(&[-7.5]), plus, over), Some(double(-7.5)));
    assert_eq!(
        find_median(&doubles(&[f64::INFINITY, 0.0, f64::NEG_INFINITY]), plus, over),
        Some(double(0.0))
    );
    // Both zeros are equal, and equal numbers keep their order.
    assert_eq!(find_median(&doubles(&[0.0, -0.0, 0.0]), plus, over), Some(double(-0.0)));
}

#[test]
fn some_lists_have_no_median() {
    let mut partition = [5; 2];
    assert_eq!(find_median(&[], plus, over), None);
    assert_eq!(find_median(&doubles(&[1.0, f64::NAN]), plus, over), None);
    assert!(!perform_partition(&doubles(&[1.0, f64::NAN]), plus, over, &mut partition));
    assert_eq!(partition, [5, 5]);
    assert_eq!(sep_quality(&doubles(&[f64::NAN, 0.0]), &path(2), plus, over), None);
    assert!(sep_circle(&path(2), &vec![doubles(&[f64::NAN, 0.0])], plus, over).is_none());
}

#[test]
fn sides_are_even() {
    let mut partition = [9; 7];
    assert!(perform_partition(&doubles(&[2.0, 2.0, 1.0, 2.0, 2.0]), plus, over, &mut partition));
    assert_eq!(partition, [1, 1, 1, 0, 0, 9, 9]);

    let mut all_equal = [9; 4];
    assert!(perform_partition(&doubles(&[2.0; 4]), plus, over, &mut all_equal));
    assert_eq!(all_equal, [1, 1, 0, 0]);
}

#[test]
fn the_quality_is_the_edge_cut() {
    let graph = path(4);
    assert_eq!(sep_quality(&doubles(&[0.0, 1.0, 2.0, 3.0]), &graph, plus, over), Some(1));
    assert_eq!(sep_quality(&doubles(&[0.0, 2.0, 1.0, 3.0]), &graph, plus, over), Some(3));
}

#[test]
fn the_first_of_the_best_circles_wins() {
    let graph = path(4);
    let circles = vec![
        doubles(&[0.0, 2.0, 1.0, 3.0]),
        doubles(&[0.0, 1.0, 2.0, 3.0]),
        doubles(&[3.0, 2.0, 1.0, 0.0]),
    ];
    assert_eq!(sep_circle(&graph, &circles, plus, over), Some((Some(1), 1)));
    assert_eq!(sep_circle(&graph, &vec![], plus, over), Some((None, i64::MAX)));
}

#[test]
fn the_best_round_decides() {
    let graph = path(4);
    let trial = |outer: usize| match outer {
        0 => vec![doubles(&[0.0, 2.0, 1.0, 3.0])],
        1 => vec![doubles(&[0.0, 2.0, 1.0, 3.0]), doubles(&[3.0, 2.0, 1.0, 0.0])],
        _ => vec![doubles(&[0.0, 1.0, 2.0, 3.0])],
    };
    let mut partition = [8; 4];
    assert!(geopart(&graph, 3, trial, plus, over, &mut partition));
    assert_eq!(partition, [0, 0, 1, 1]);

    let mut untouched = [8; 4];
    assert!(geopart(&graph, 0, trial, plus, over, &mut untouched));
    assert_eq!(untouched, [8; 4]);
}

#[test]
fn the_geometric_partitioner_checks_its_input() {
    let settings = GeometricPartitioner::default();
    assert_eq!(settings.fa2_iterations, 100);
    let graph = path(4);
    let trial = |_: usize| vec![doubles(&[0.0, 1.0, 2.0, 3.0])];
    let mut partition = [8; 4];
    assert_eq!(
        settings.partition(&mut partition, &graph, &doubles(&[1.0; 3]), 1, trial, plus, over),
        Err(Error::InputLenMismatch { expected: 4, actual: 3 })
    );
    assert_eq!(
        settings.partition(&mut partition, &path(5), &doubles(&[1.0; 4]), 1, trial, plus, over),
        Err(Error::InputLenMismatch { expected: 4, actual: 5 })
    );
    let broken = |_: usize| vec![doubles(&[0.0, f64::NAN, 2.0, 3.0])];
    assert_eq!(
        settings.partition(&mut partition, &graph, &doubles(&[1.0; 4]), 1, broken, plus, over),
        Err(Error::NoMedian)
    );
    assert_eq!(partition, [8; 4]);
    assert_eq!(
        settings.partition(&mut partition, &graph, &doubles(&[1.0; 4]), 1, trial, plus, over),
        Ok(())
    );
    assert_eq!(partition, [1, 1, 0, 0]);
}

#[test]
fn samples_hold_different_points() {
    let sample = sample_indices(50, 20);
    assert_eq!(sample.len(), 20);
    let mut sorted = sample.clone();
    sorted.sort();
    sorted.dedup();
    assert_eq!(sorted.len(), 20);
    assert!(sorted.iter().all(|i| *i < 50));
    let mut whole = sample_indices(200, 200);
    assert_ne!(whole, (0..200).collect::<Vec<usize>>());
    whole.sort();
    assert_eq!(whole, (0..200).collect::<Vec<usize>>());
}

#[test]
fn sample_sizes_are_limited() {
    assert_eq!(sample_limit(10, 2), 10);
    assert_eq!(sample_limit(10000, 2), 625);
}

#[test]
fn radon_points_queue_up() {
    assert_eq!(radon_steps(1, 3), vec![]);
    assert_eq!(radon_steps(5, 3), vec![RadonStep { first: 0, slot: 5 }]);
    assert_eq!(
        radon_steps(12, 3),
        vec![
            RadonStep { first: 0, slot: 12 },
            RadonStep { first: 6, slot: 13 },
            RadonStep { first: 12, slot: 14 },
        ]
    );
}

#[test]
fn positive_numbers_are_found() {
    let values = doubles(&[0.0, 1.5, -2.0, -0.0, f64::NAN, f64::INFINITY, 5e-324]);
    assert_eq!(positive_places(&values), vec![1, 5, 6]);
}

#[test]
fn doubles_compare_by_their_bits() {
    let numbers = [
        f64::NEG_INFINITY,
        -2.5,
        -1.0,
        -5e-324,
        -0.0,
        0.0,
        5e-324,
        1.0,
        1.5,
        f64::INFINITY,
        f64::NAN,
    ];
    for a in numbers {
        for b in numbers {
            assert_eq!(double(a).less(&double(b)), a < b);
            assert_eq!(double(a).at_least(&double(b)), a >= b);
        }
        assert_eq!(double(a).is_nan(), a.is_nan());
    }
    assert_eq!(float(Double::zero()), 0.0);
    assert_eq!(double(-5e-324).to_place(), -1);
    assert_eq!(double(-0.0).to_place(), 0);
    assert_eq!(double(1.0).to_place(), 0x3ff0_0000_0000_0000);
}
