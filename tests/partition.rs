use virtual_brain::partition_ops::{adjacent_coords, capacity, coords, partition, total_capacity};
use virtual_brain::{PartitionCoord, PartitionCoordError, Spin};

#[test]
fn test_capacity_formula() {
    assert_eq!(PartitionCoord::capacity(1).unwrap(), 2);
    assert_eq!(PartitionCoord::capacity(2).unwrap(), 8);
    assert_eq!(PartitionCoord::capacity(3).unwrap(), 18);
    assert_eq!(PartitionCoord::capacity(4).unwrap(), 32);
    assert_eq!(PartitionCoord::capacity(5).unwrap(), 50);
}

#[test]
fn test_total_capacity() {
    assert_eq!(PartitionCoord::total_capacity(1), 2);
    assert_eq!(PartitionCoord::total_capacity(2), 10); // 2 + 8
    assert_eq!(PartitionCoord::total_capacity(3), 28); // 2 + 8 + 18
}

#[test]
fn test_linear_index_bijection() {
    for idx in 0..100 {
        let coord = PartitionCoord::from_linear_index(idx).unwrap();
        assert_eq!(coord.to_linear_index(), idx);
    }
}

#[test]
fn test_distance_symmetry() {
    let c1 = PartitionCoord::new(2, 1, 0, Spin::Up).unwrap();
    let c2 = PartitionCoord::new(3, 1, 1, Spin::Down).unwrap();
    let d12 = (c1.categorical_distance_squared(&c2) as f64).sqrt();
    let d21 = (c2.categorical_distance_squared(&c1) as f64).sqrt();
    assert!((d12 - d21).abs() < 1e-10);
}

#[test]
fn partition_coord_test_validation() {
    assert!(PartitionCoord::new(0, 0, 0, Spin::Up).is_err());
    assert!(PartitionCoord::new(1, 1, 0, Spin::Up).is_err()); // l >= n
    assert!(PartitionCoord::new(2, 1, 2, Spin::Up).is_err()); // m > l
}

#[test]
fn test_capacity() {
    assert_eq!(capacity(1).unwrap(), 2);
    assert_eq!(capacity(2).unwrap(), 8);
    assert_eq!(capacity(3).unwrap(), 18);
}

#[test]
fn test_partition_mapping() {
    for idx in 0..28 {
        let coord = partition(idx, 3).unwrap();
        assert_eq!(coord.to_linear_index(), idx);
    }
}

#[test]
fn test_adjacent_coords() {
    let coord = PartitionCoord::new(2, 1, 0, Spin::Up).unwrap();
    let adj = adjacent_coords(&coord);
    for a in &adj {
        assert!(coord.is_adjacent(a));
    }
}

#[test]
fn new_names_the_invalid_component() {
    assert_eq!(PartitionCoord::new(0, 0, 0, Spin::Up), Err(PartitionCoordError::InvalidN(0)));
    assert_eq!(PartitionCoord::new(2, 2, 0, Spin::Up), Err(PartitionCoordError::InvalidL(2, 2)));
    assert_eq!(PartitionCoord::new(2, -1, 0, Spin::Up), Err(PartitionCoordError::InvalidL(-1, 2)));
    assert_eq!(PartitionCoord::new(3, 1, -2, Spin::Down), Err(PartitionCoordError::InvalidM(-2, 1)));
    let c = PartitionCoord::new(3, 2, -1, Spin::Up).unwrap();
    assert_eq!((c.n(), c.l(), c.m(), c.s()), (3, 2, -1, Spin::Up));
}

#[test]
fn capacity_rejects_levels_below_one() {
    assert_eq!(capacity(0), Err(PartitionCoordError::InvalidN(0)));
    assert_eq!(PartitionCoord::capacity(-4), Err(PartitionCoordError::InvalidN(-4)));
    assert_eq!(PartitionCoord::capacity(32767).unwrap(), 2_147_352_578);
}

#[test]
fn total_capacity_is_sum_of_level_capacities() {
    assert_eq!(total_capacity(0), 0);
    assert_eq!(total_capacity(-3), 0);
    for n in 1..=50 {
        let sum: i64 = (1..=n).map(|i| 2 * i as i64 * i as i64).sum();
        assert_eq!(total_capacity(n), sum);
    }
    // the largest level whose cumulative capacity fits in an i64
    let n: i64 = 2_400_639;
    let expected = ((n as i128) * (n as i128 + 1) * (2 * n as i128 + 1) / 3) as i64;
    assert_eq!(total_capacity(2_400_639), expected);
}

#[test]
fn density_of_states_is_four_n() {
    assert_eq!(PartitionCoord::density_of_states(3), 12);
    assert_eq!(PartitionCoord::density_of_states(0), 0);
}

#[test]
fn linear_index_follows_canonical_order() {
    let expected = [
        (1, 0, 0, Spin::Down),
        (1, 0, 0, Spin::Up),
        (2, 0, 0, Spin::Down),
        (2, 0, 0, Spin::Up),
        (2, 1, -1, Spin::Down),
        (2, 1, -1, Spin::Up),
        (2, 1, 0, Spin::Down),
        (2, 1, 0, Spin::Up),
        (2, 1, 1, Spin::Down),
        (2, 1, 1, Spin::Up),
        (3, 0, 0, Spin::Down),
    ];
    for (i, &(n, l, m, s)) in expected.iter().enumerate() {
        let c = PartitionCoord::from_linear_index(i as i64).unwrap();
        assert_eq!(c, PartitionCoord::new(n, l, m, s).unwrap());
    }
}

#[test]
fn linear_index_round_trip_on_large_indices() {
    for idx in [1_000_i64, 123_456_789, 9_000_000_000_000_000_000, i64::MAX] {
        let c = PartitionCoord::from_linear_index(idx).unwrap();
        assert_eq!(c.to_linear_index(), idx);
        let again = PartitionCoord::from_linear_index(c.to_linear_index()).unwrap();
        assert_eq!(again, c);
    }
}

#[test]
fn from_linear_index_rejects_negative() {
    assert_eq!(PartitionCoord::from_linear_index(-1), Err(PartitionCoordError::InvalidIndex(-1)));
}

#[test]
fn partition_rejects_out_of_range_ids() {
    assert_eq!(partition(28, 3), Err(PartitionCoordError::InvalidIndex(28)));
    assert_eq!(partition(-5, 3), Err(PartitionCoordError::InvalidIndex(-5)));
    assert_eq!(partition(0, 0), Err(PartitionCoordError::InvalidIndex(0)));
    assert_eq!(partition(27, 3).unwrap(), PartitionCoord::new(3, 2, 2, Spin::Up).unwrap());
}

#[test]
fn distance_is_symmetric_and_exact() {
    let a = PartitionCoord::new(4, 3, -2, Spin::Down).unwrap();
    let b = PartitionCoord::new(1, 0, 0, Spin::Up).unwrap();
    // 3^2 + 3^2 + 2^2 + 1^2
    assert_eq!(a.categorical_distance_squared(&b), 23);
    assert_eq!(b.categorical_distance_squared(&a), 23);
    assert_eq!(a.categorical_distance_squared(&a), 0);
}

#[test]
fn adjacency_means_distance_one() {
    let a = PartitionCoord::new(2, 1, 0, Spin::Up).unwrap();
    assert!(a.is_adjacent(&PartitionCoord::new(2, 1, 0, Spin::Down).unwrap()));
    assert!(a.is_adjacent(&PartitionCoord::new(3, 1, 0, Spin::Up).unwrap()));
    assert!(!a.is_adjacent(&a));
    assert!(!a.is_adjacent(&PartitionCoord::new(3, 1, 1, Spin::Up).unwrap()));
}

#[test]
fn adjacent_coords_lists_neighbours_in_order() {
    let coord = PartitionCoord::new(2, 1, 0, Spin::Up).unwrap();
    let adj = adjacent_coords(&coord);
    let expected = vec![
        PartitionCoord::new(3, 1, 0, Spin::Up).unwrap(),
        PartitionCoord::new(2, 0, 0, Spin::Up).unwrap(),
        PartitionCoord::new(2, 1, -1, Spin::Up).unwrap(),
        PartitionCoord::new(2, 1, 1, Spin::Up).unwrap(),
        PartitionCoord::new(2, 1, 0, Spin::Down).unwrap(),
    ];
    assert_eq!(adj, expected);

    let low = PartitionCoord::new(3, 0, 0, Spin::Down).unwrap();
    let adj = adjacent_coords(&low);
    let expected = vec![
        PartitionCoord::new(2, 0, 0, Spin::Down).unwrap(),
        PartitionCoord::new(4, 0, 0, Spin::Down).unwrap(),
        PartitionCoord::new(3, 1, 0, Spin::Down).unwrap(),
        PartitionCoord::new(3, 0, 0, Spin::Up).unwrap(),
    ];
    assert_eq!(adj, expected);
}

#[test]
fn level_enumeration_is_canonical() {
    assert_eq!(coords(0), Err(PartitionCoordError::InvalidN(0)));
    for n in 1..=6 {
        let level = PartitionCoord::all_coords_at_level(n).unwrap();
        assert_eq!(level.len() as i32, 2 * n * n);
        let base = PartitionCoord::total_capacity(n - 1);
        for (k, c) in level.iter().enumerate() {
            assert_eq!(c.n(), n);
            assert_eq!(c.to_linear_index(), base + k as i64);
        }
    }
    let level2 = coords(2).unwrap();
    assert_eq!(level2[2], PartitionCoord::new(2, 1, -1, Spin::Down).unwrap());
}

#[test]
fn iter_all_enumerates_every_level() {
    let all = PartitionCoord::iter_all(4);
    assert_eq!(all.len(), 60);
    for (k, c) in all.iter().enumerate() {
        assert_eq!(c.to_linear_index(), k as i64);
    }
    assert!(PartitionCoord::iter_all(0).is_empty());
}

#[test]
fn default_coordinate_is_the_first() {
    let c = PartitionCoord::default();
    assert_eq!(c, PartitionCoord::new(1, 0, 0, Spin::Down).unwrap());
    assert_eq!(c.to_linear_index(), 0);
}
