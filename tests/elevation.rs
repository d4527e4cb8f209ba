use radar_beam::elevation::{elevation_codes, ElevationRange, ElevationRangeIterator, ElevationSpan};

fn degrees(ranges: &[ElevationRange]) -> Vec<f64> {
    elevation_codes(ranges)
        .into_iter()
        .map(|c| c as f64 * 0.1)
        .collect()
}

#[test]
fn elevation_iteration() {
    let el_ranges = vec![
        ElevationRange::new(0, 5),
        ElevationRange::new(50, 10),
        ElevationRange::new(100, 20),
        ElevationRange::new(200, 50),
        ElevationRange::new(400, 0),
    ];
    let actual = degrees(&el_ranges);
    let expected = vec![
        0.0, 0.5, 1.0, 1.5, 2.0, 2.5, 3.0, 3.5, 4.0, 4.5, 5.0, 6.0, 7.0, 8.0, 9.0, 10.0, 12.0,
        14.0, 16.0, 18.0, 20.0, 25.0, 30.0, 35.0, 40.0,
    ];
    assert_eq!(actual, expected);
}

#[test]
fn tiered_codes_exact() {
    let el_ranges = vec![
        ElevationRange::new(0, 5),
        ElevationRange::new(50, 10),
        ElevationRange::new(100, 20),
        ElevationRange::new(200, 50),
        ElevationRange::new(400, 0),
    ];
    let expected: Vec<u16> = vec![
        0, 5, 10, 15, 20, 25, 30, 35, 40, 45, 50, 60, 70, 80, 90, 100, 120, 140, 160, 180, 200,
        250, 300, 350, 400,
    ];
    assert_eq!(elevation_codes(&el_ranges), expected);
}

#[test]
fn single_tier_gives_its_start() {
    assert_eq!(degrees(&[ElevationRange::new(0, 5)]), vec![0.0]);
    assert_eq!(elevation_codes(&[ElevationRange::new(37, 9)]), vec![37]);
}

#[test]
fn empty_tiers_give_nothing() {
    assert!(elevation_codes(&[]).is_empty());
}

#[test]
fn last_tier_ignores_its_step() {
    let el_ranges = [ElevationRange::new(0, 5), ElevationRange::new(10, 3)];
    assert_eq!(elevation_codes(&el_ranges), vec![0, 5, 10]);
}

#[test]
fn step_that_overshoots_the_next_start() {
    let el_ranges = [ElevationRange::new(0, 7), ElevationRange::new(10, 0)];
    assert_eq!(elevation_codes(&el_ranges), vec![0, 7, 10]);
}

#[test]
fn descending_tier_contributes_nothing() {
    let el_ranges = [
        ElevationRange::new(50, 10),
        ElevationRange::new(20, 5),
        ElevationRange::new(30, 0),
    ];
    assert_eq!(elevation_codes(&el_ranges), vec![20, 25, 30]);
}

#[test]
fn largest_codes() {
    let el_ranges = [ElevationRange::new(65530, 4), ElevationRange::new(65535, 0)];
    assert_eq!(elevation_codes(&el_ranges), vec![65530, 65534, 65535]);
}

#[test]
fn expansion_is_repeatable() {
    let el_ranges = [
        ElevationRange::new(0, 2),
        ElevationRange::new(50, 5),
        ElevationRange::new(100, 10),
        ElevationRange::new(150, 50),
        ElevationRange::new(450, 0),
    ];
    let first = elevation_codes(&el_ranges);
    let second = elevation_codes(&el_ranges);
    assert_eq!(first, second);
    assert!(first.windows(2).all(|w| w[0] < w[1]));
    assert_eq!(first.len(), 25 + 10 + 5 + 6 + 1);
}

#[test]
fn range_new_keeps_fields() {
    let r = ElevationRange::new(12, 3);
    assert_eq!(r.start, 12);
    assert_eq!(r.step, 3);
}

#[test]
fn iterator_hands_out_spans() {
    let el_ranges = [ElevationRange::new(0, 5), ElevationRange::new(50, 10), ElevationRange::new(100, 0)];
    let mut it = ElevationRangeIterator::new(&el_ranges);
    assert_eq!(it.next(), Some(ElevationSpan { start: 0, end: 50, step: 5 }));
    assert_eq!(it.next(), Some(ElevationSpan { start: 50, end: 100, step: 10 }));
    assert_eq!(it.next(), Some(ElevationSpan { start: 100, end: 101, step: 1 }));
    assert_eq!(it.next(), None);
    assert_eq!(it.next(), None);
}

#[test]
fn iterator_last_span_past_u16() {
    let el_ranges = [ElevationRange::new(65535, 9)];
    let mut it = ElevationRangeIterator::new(&el_ranges);
    assert_eq!(it.next(), Some(ElevationSpan { start: 65535, end: 65536, step: 1 }));
    assert_eq!(it.next(), None);
}
