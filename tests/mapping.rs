use gdal_dtm_exporter::mapping::map_range;

#[test]
fn ends_map_to_ends() {
    assert_eq!(map_range((0, 15), (0, 1), 0), Some(0));
    assert_eq!(map_range((0, 15), (0, 1), 15), Some(1));
    assert_eq!(map_range((-100, 100), (0, 1000), -100), Some(0));
    assert_eq!(map_range((-100, 100), (0, 1000), 100), Some(1000));
}

#[test]
fn interior_values_are_linear() {
    assert_eq!(map_range((0, 10), (0, 100), 3), Some(30));
    assert_eq!(map_range((0, 15), (0, 255), 7), Some(119));
    assert_eq!(map_range((10, 20), (100, 200), 15), Some(150));
}

#[test]
fn quotient_rounds_toward_zero() {
    assert_eq!(map_range((0, 3), (0, 1), 2), Some(0));
    assert_eq!(map_range((0, 3), (0, -10), 1), Some(-3));
    assert_eq!(map_range((0, 2), (0, 1), -3), Some(-1));
}

#[test]
fn reversed_ranges_map_linearly() {
    assert_eq!(map_range((10, 0), (0, 100), 10), Some(0));
    assert_eq!(map_range((10, 0), (0, 100), 0), Some(100));
    assert_eq!(map_range((0, 10), (100, 0), 4), Some(60));
}

#[test]
fn values_outside_the_range_are_not_clamped() {
    assert_eq!(map_range((0, 10), (0, 100), 20), Some(200));
    assert_eq!(map_range((0, 10), (0, 100), -5), Some(-50));
}

#[test]
fn empty_source_range_gives_none() {
    assert_eq!(map_range((5, 5), (0, 1), 5), None);
}

#[test]
fn result_outside_i32_gives_none() {
    assert_eq!(map_range((0, 1), (0, i32::MAX), 2), None);
    assert_eq!(map_range((0, 1), (i32::MIN, 0), -1), None);
    assert_eq!(map_range((i32::MIN, i32::MAX), (i32::MIN, i32::MAX), 7), Some(7));
}

#[test]
fn mapped_values_stay_in_target_range() {
    for s in -20..=20 {
        let v = map_range((-20, 20), (0, 1), s).unwrap();
        assert!((0..=1).contains(&v));
    }
}
