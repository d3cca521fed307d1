use phext_life::coordinate::Coordinate;

#[test]
fn test_origin() {
    let c = Coordinate::origin();
    assert_eq!(c.dims, [1, 1, 1, 1, 1, 1, 1, 1, 1]);
}

#[test]
fn test_neighbor() {
    let extents = [3u8; 9];
    let c = Coordinate::new([2, 2, 2, 2, 2, 2, 2, 2, 2]);

    let n = c.neighbor(0, 1, &extents).unwrap();
    assert_eq!(n.dims[0], 3);

    let n = c.neighbor(0, -1, &extents).unwrap();
    assert_eq!(n.dims[0], 1);
}

#[test]
fn test_von_neumann() {
    let extents = [3u8; 9];
    let c = Coordinate::new([2, 2, 2, 2, 2, 2, 2, 2, 2]);
    let neighbors = c.von_neumann_neighbors(&extents);
    assert_eq!(neighbors.len(), 18); // 2 per dimension × 9 dimensions
}

#[test]
fn test_index_roundtrip() {
    let extents = [3u8; 9];
    let c = Coordinate::new([2, 3, 1, 2, 3, 1, 2, 3, 1]);
    let idx = c.to_index(&extents);
    let c2 = Coordinate::from_index(idx, &extents);
    assert_eq!(c, c2);
}

#[test]
fn neighbor_out_of_bounds_is_none() {
    let extents = [3u8; 9];
    let low = Coordinate::origin();
    assert!(low.neighbor(4, -1, &extents).is_none());
    let high = Coordinate::new([3; 9]);
    assert!(high.neighbor(8, 1, &extents).is_none());
    assert!(low.neighbor(9, 1, &extents).is_none());
    assert!(low.neighbor(0, 3, &extents).is_none());
    assert_eq!(low.neighbor(0, 2, &extents).unwrap().dims[0], 3);
}

#[test]
fn neighbor_undo_returns_home() {
    let extents = [4u8; 9];
    let c = Coordinate::new([2, 3, 4, 1, 2, 3, 4, 1, 2]);
    for dim in 0..9 {
        for delta in [-1i8, 1] {
            if let Some(n) = c.neighbor(dim, delta, &extents) {
                assert_eq!(n.neighbor(dim, -delta, &extents), Some(c));
                assert_eq!(c.distance(&n), 1);
            }
        }
    }
}

#[test]
fn von_neumann_at_corner_and_order() {
    let extents = [3u8; 9];
    let corner = Coordinate::origin();
    let neighbors = corner.von_neumann_neighbors(&extents);
    assert_eq!(neighbors.len(), 9);
    for (i, n) in neighbors.iter().enumerate() {
        let mut expected = [1u8; 9];
        expected[i] = 2;
        assert_eq!(n.dims, expected);
        assert_eq!(corner.distance(n), 1);
    }
    let flat = Coordinate::new([1, 2, 2, 2, 2, 2, 2, 2, 2]);
    let neighbors = flat.von_neumann_neighbors(&[1, 3, 3, 3, 3, 3, 3, 3, 3]);
    assert_eq!(neighbors.len(), 16);
    assert_eq!(neighbors[0].dims, [1, 1, 2, 2, 2, 2, 2, 2, 2]);
    assert_eq!(neighbors[1].dims, [1, 3, 2, 2, 2, 2, 2, 2, 2]);
}

#[test]
fn distance_is_a_metric_on_examples() {
    let a = Coordinate::new([1, 2, 3, 4, 5, 6, 7, 8, 9]);
    let b = Coordinate::new([9, 8, 7, 6, 5, 4, 3, 2, 1]);
    let c = Coordinate::origin();
    assert_eq!(a.distance(&b), 40);
    assert_eq!(b.distance(&a), 40);
    assert_eq!(a.distance(&a), 0);
    assert_eq!(a.distance(&c), 36);
    assert!(a.distance(&b) <= a.distance(&c) + c.distance(&b));
    let far = Coordinate::new([255; 9]);
    assert_eq!(Coordinate::new([0; 9]).distance(&far), 9 * 255);
}

#[test]
fn to_index_values() {
    let extents = [3u8; 9];
    assert_eq!(Coordinate::origin().to_index(&extents), 0);
    assert_eq!(Coordinate::new([2, 1, 1, 1, 1, 1, 1, 1, 1]).to_index(&extents), 1);
    assert_eq!(Coordinate::new([1, 2, 1, 1, 1, 1, 1, 1, 1]).to_index(&extents), 3);
    assert_eq!(Coordinate::new([3; 9]).to_index(&extents), 19682);
    let mixed = [5u8, 5, 5, 3, 3, 3, 2, 2, 2];
    assert_eq!(Coordinate::new([5, 5, 5, 3, 3, 3, 2, 2, 2]).to_index(&mixed), 26999);
    assert_eq!(Coordinate::new([1, 1, 1, 1, 1, 1, 1, 1, 2]).to_index(&mixed), 13500);
}

#[test]
fn from_index_values_and_roundtrip() {
    let mixed = [5u8, 5, 5, 3, 3, 3, 2, 2, 2];
    assert_eq!(Coordinate::from_index(0, &mixed), Coordinate::origin());
    assert_eq!(Coordinate::from_index(7, &mixed).dims, [3, 2, 1, 1, 1, 1, 1, 1, 1]);
    for idx in [0usize, 1, 124, 125, 999, 13499, 13500, 26999] {
        let c = Coordinate::from_index(idx, &mixed);
        assert_eq!(c.to_index(&mixed), idx);
    }
}

#[test]
fn random_coordinates_stay_within_extents() {
    let extents = [5u8, 5, 5, 3, 3, 3, 2, 2, 1];
    for _ in 0..100 {
        let c = Coordinate::random(&extents);
        for i in 0..9 {
            assert!(c.dims[i] >= 1 && c.dims[i] <= extents[i]);
        }
    }
}

#[test]
fn default_is_all_zero() {
    assert_eq!(Coordinate::default().dims, [0; 9]);
}

#[test]
fn address_text_of_coordinates() {
    assert_eq!(Coordinate::origin().to_string(), "1.1.1/1.1.1/1.1.1");
    let c = Coordinate::new([1, 2, 3, 4, 5, 6, 7, 8, 9]);
    assert_eq!(c.to_string(), "1.2.3/4.5.6/7.8.9");
    let wide = Coordinate::new([10, 255, 100, 0, 99, 101, 5, 20, 250]);
    assert_eq!(wide.to_string(), "10.255.100/0.99.101/5.20.250");
}

#[test]
fn from_index_reads_modulo_the_coordinate_count() {
    let extents = [3u8, 2, 1, 1, 1, 1, 1, 1, 2];
    let total = 3 * 2 * 2;
    for idx in 0..40usize {
        let c = Coordinate::from_index(idx, &extents);
        assert_eq!(c, Coordinate::from_index(idx % total, &extents));
        assert!((0..9).all(|i| c.dims[i] >= 1 && c.dims[i] <= extents[i]));
    }
}
